//! Frames: the size of what follows in four bytes, most significant first, a
//! byte that tells the kind, and a JSON object. A bad frame ends the
//! connection.

use crate::json;
use crate::json::{read_member, write_object, JsonPart, JsonValue, Member};
use crate::moment::{millis_at, system_nanos};
use crate::text::owned;
use vstd::prelude::*;

verus! {

/// The largest size that a frame may give.
pub const MAX_FRAME: usize = 1_048_576;

/// The version of the protocol, as a greeting gives it.
pub const PROTO_V: u16 = 1;

/// The kind byte of a greeting.
pub const T_HELLO: u8 = 1;

/// The kind byte of a text message.
pub const T_TEXT: u8 = 2;

/// A message.
#[derive(Debug, Clone, PartialEq)]
pub enum Msg {
    /// The greeting at the start of a connection.
    Hello { v: u16 },
    /// A text message.
    Text { id: String, body: String, ts_ms: u64 },
}

/// A message by the values that it holds.
#[verifier::ext_equal]
pub enum MsgRow {
    Hello { v: u16 },
    Text { id: Seq<char>, body: Seq<char>, ts_ms: u64 },
}

impl View for Msg {
    type V = MsgRow;

    open spec fn view(&self) -> MsgRow {
        match *self {
            Msg::Hello { v } => MsgRow::Hello { v },
            Msg::Text { id, body, ts_ms } => MsgRow::Text { id: id@, body: body@, ts_ms },
        }
    }
}

/// Why a frame cannot be written or read.
#[derive(Debug, Clone, Copy, PartialEq, Eq, Structural)]
pub enum FrameError {
    /// The message does not fit into a frame.
    TooLarge,
    /// The size is zero or above the largest.
    SizeOutOfRange,
    /// The bytes end inside the frame.
    Truncated,
    /// The payload is not JSON.
    BadPayload,
    /// There is no such kind.
    UnknownType,
}

impl FrameError {
    /// Whether the bytes themselves are at fault, and not merely their end.
    pub fn is_invalid_data(&self) -> (r: bool)
        ensures
            r == (*self != FrameError::Truncated),
    {
        match self {
            FrameError::Truncated => false,
            _ => true,
        }
    }
}

// ---------------------------------------------------------------------------
// Frames
// ---------------------------------------------------------------------------

/// A number in four bytes, most significant first.
pub open spec fn size_bytes(n: nat) -> Seq<u8> {
    seq![
        (n / 16_777_216 % 256) as u8,
        (n / 65_536 % 256) as u8,
        (n / 256 % 256) as u8,
        (n % 256) as u8,
    ]
}

/// The number in four bytes, most significant first.
pub open spec fn size_in(b: Seq<u8>) -> int {
    b[0] * 16_777_216 + b[1] * 65_536 + b[2] * 256 + b[3]
}

/// The frame of a kind with a payload.
pub open spec fn frame(kind: u8, payload: Seq<u8>) -> Seq<u8> {
    size_bytes(payload.len() + 1) + seq![kind] + payload
}

/// The first frame in the input: its kind and its payload.
pub open spec fn first_frame(input: Seq<u8>) -> Result<(u8, Seq<u8>), FrameError> {
    if input.len() < 4 {
        Err(FrameError::Truncated)
    } else if size_in(input) == 0 || size_in(input) > MAX_FRAME {
        Err(FrameError::SizeOutOfRange)
    } else if input.len() < 4 + size_in(input) {
        Err(FrameError::Truncated)
    } else {
        Ok((input[4], input.subrange(5, 4 + size_in(input))))
    }
}

/// A payload in a frame of its kind.
pub fn frame_bytes(kind: u8, payload: &[u8]) -> (r: Result<Vec<u8>, FrameError>)
    ensures
        r is Ok <==> payload@.len() + 1 <= MAX_FRAME,
        r matches Ok(b) ==> b@ == frame(kind, payload@),
        r matches Err(e) ==> e == FrameError::TooLarge,
{
    if payload.len() >= MAX_FRAME {
        return Err(FrameError::TooLarge);
    }
    let n: usize = payload.len() + 1;
    let mut out: Vec<u8> = Vec::new();
    out.push((n / 16_777_216 % 256) as u8);
    out.push((n / 65_536 % 256) as u8);
    out.push((n / 256 % 256) as u8);
    out.push((n % 256) as u8);
    out.push(kind);
    assert(out@ =~= size_bytes(n as nat) + seq![kind]);
    let mut i: usize = 0;
    assert(payload@.take(0) =~= Seq::<u8>::empty());
    while i < payload.len()
        invariant
            i <= payload.len(),
            out@ == size_bytes(n as nat) + seq![kind] + payload@.take(i as int),
        decreases payload.len() - i,
    {
        out.push(payload[i]);
        assert(payload@.take(i + 1) =~= payload@.take(i as int).push(payload@[i as int]));
        i += 1;
    }
    assert(payload@.take(payload@.len() as int) =~= payload@);
    Ok(out)
}

/// The size that the first four bytes give, of what follows them. A size out
/// of range is refused before anything else is read.
pub fn frame_size(head: &[u8]) -> (r: Result<usize, FrameError>)
    ensures
        r matches Ok(n) ==> head@.len() >= 4 && n == size_in(head@) && 1 <= n <= MAX_FRAME,
        r == Err::<usize, FrameError>(FrameError::Truncated) <==> head@.len() < 4,
        r == Err::<usize, FrameError>(FrameError::SizeOutOfRange) <==> head@.len() >= 4 && !(1
            <= size_in(head@) <= MAX_FRAME),
        r matches Err(e) ==> e is Truncated || e is SizeOutOfRange,
{
    if head.len() < 4 {
        return Err(FrameError::Truncated);
    }
    let n: u64 = head[0] as u64 * 16_777_216 + head[1] as u64 * 65_536 + head[2] as u64 * 256
        + head[3] as u64;
    if n == 0 || n > 1_048_576 {
        return Err(FrameError::SizeOutOfRange);
    }
    Ok(n as usize)
}

/// A frame is found again at the start of any input that begins with it: the
/// kind, the payload, and the size.
pub proof fn law_frame_round_trip(kind: u8, payload: Seq<u8>, rest: Seq<u8>)
    requires
        payload.len() + 1 <= MAX_FRAME,
    ensures
        first_frame(frame(kind, payload) + rest) == Ok::<(u8, Seq<u8>), FrameError>(
            (kind, payload),
        ),
        size_in(frame(kind, payload) + rest) + 4 == frame(kind, payload).len(),
{
    let n = payload.len() + 1;
    let input = frame(kind, payload) + rest;
    assert(input.len() >= 4 + n);
    assert(input[0] == (n / 16_777_216 % 256) as u8);
    assert(input[1] == (n / 65_536 % 256) as u8);
    assert(input[2] == (n / 256 % 256) as u8);
    assert(input[3] == (n % 256) as u8);
    assert(size_in(input) == n);
    assert(input[4] == kind);
    assert(input.subrange(5, 4 + n as int) =~= payload);
}

// ---------------------------------------------------------------------------
// Messages
// ---------------------------------------------------------------------------

/// The kind byte of a message.
pub open spec fn kind_of(m: MsgRow) -> u8 {
    match m {
        MsgRow::Hello { .. } => T_HELLO,
        MsgRow::Text { .. } => T_TEXT,
    }
}

/// The object that carries a message.
pub open spec fn members_of(m: MsgRow) -> Seq<json::MemberRow> {
    match m {
        MsgRow::Hello { v } => seq![json::number_member("v"@, v as u64)],
        MsgRow::Text { id, body, ts_ms } => seq![
            json::text_member("body"@, body),
            json::text_member("id"@, id),
            json::number_member("ts_ms"@, ts_ms),
        ],
    }
}

/// The payload of a message.
pub open spec fn payload_of(m: MsgRow) -> Seq<u8> {
    json::object_bytes(members_of(m))
}

/// Whether a message fits into a frame.
pub open spec fn fits(m: MsgRow) -> bool {
    payload_of(m).len() + 1 <= MAX_FRAME
}

/// Text under a key, nothing if there is none.
pub open spec fn text_or_empty(p: json::PartRow) -> Seq<char> {
    match p {
        json::PartRow::Text(s) => s,
        _ => Seq::empty(),
    }
}

/// The number under a key, zero if there is none.
pub open spec fn number_or_zero(p: json::PartRow) -> u64 {
    match p {
        json::PartRow::Number(n) => n,
        _ => 0,
    }
}

/// The message of a kind, from what its payload holds under the keys.
pub open spec fn message_in(
    kind: u8,
    v: json::PartRow,
    id: json::PartRow,
    body: json::PartRow,
    ts_ms: json::PartRow,
) -> Result<MsgRow, FrameError> {
    if v is Bad {
        Err(FrameError::BadPayload)
    } else if kind == T_HELLO {
        Ok(MsgRow::Hello { v: (number_or_zero(v) % 65_536) as u16 })
    } else if kind == T_TEXT {
        Ok(
            MsgRow::Text {
                id: text_or_empty(id),
                body: text_or_empty(body),
                ts_ms: number_or_zero(ts_ms),
            },
        )
    } else {
        Err(FrameError::UnknownType)
    }
}

/// The message that a payload of a kind carries.
pub open spec fn message_of(kind: u8, payload: Seq<u8>) -> Result<MsgRow, FrameError> {
    message_in(
        kind,
        json::json_member(payload, "v"@),
        json::json_member(payload, "id"@),
        json::json_member(payload, "body"@),
        json::json_member(payload, "ts_ms"@),
    )
}

/// The message in the first frame of the input.
pub open spec fn first_message(input: Seq<u8>) -> Result<MsgRow, FrameError> {
    match first_frame(input) {
        Ok((kind, payload)) => message_of(kind, payload),
        Err(e) => Err(e),
    }
}

/// The result of reading a message by the values that it holds.
pub open spec fn message_row(r: Result<Msg, FrameError>) -> Result<MsgRow, FrameError> {
    match r {
        Ok(m) => Ok(m@),
        Err(e) => Err(e),
    }
}

proof fn lemma_members_of(m: MsgRow)
    ensures
        json::well_keyed(members_of(m)),
        "v"@ != "id"@,
        "id"@ != "body"@,
        "body"@ != "ts_ms"@,
        "id"@ != "ts_ms"@,
{
    reveal_strlit("v");
    reveal_strlit("id");
    reveal_strlit("body");
    reveal_strlit("ts_ms");
    assert("v"@.len() == 1);
    assert("id"@.len() == 2);
    assert("body"@.len() == 4);
    assert("ts_ms"@.len() == 5);
    let v = members_of(m);
    assert forall|i: int| 0 <= i < v.len() implies json::is_plain(#[trigger] v[i].key) by {
        let key = v[i].key;
        assert forall|j: int| 0 <= j < key.len() implies ('a' <= #[trigger] key[j] <= 'z' || '0'
            <= key[j] <= '9' || key[j] == '_') by {}
    }
}

/// The current time in milliseconds since the epoch.
pub fn now_ms() -> (r: u64)
    ensures
        exists|n: u128| r == #[trigger] (n / 1_000_000) % 0x1_0000_0000_0000_0000,
{
    let n: u128 = system_nanos();
    millis_at(n)
}

/// Whether the text has the form of a random identifier: hexadecimal digits in
/// groups of eight, four, four, four and twelve, the third beginning with 4 and
/// the fourth with 8, 9, a or b.
pub open spec fn is_random_id(s: Seq<char>) -> bool {
    &&& s.len() == 36
    &&& s[8] == '-' && s[13] == '-' && s[18] == '-' && s[23] == '-'
    &&& s[14] == '4'
    &&& s[19] == '8' || s[19] == '9' || s[19] == 'a' || s[19] == 'b'
    &&& forall|i: int|
        0 <= i < 36 && i != 8 && i != 13 && i != 18 && i != 23 ==> ('0' <= #[trigger] s[i] <= '9'
            || 'a' <= s[i] <= 'f')
}

/// A new identifier: `uuid::Uuid::new_v4` in its usual form. It is random, so
/// only its form is stated.
#[verifier::external_body]
pub fn new_id() -> (r: String)
    ensures
        is_random_id(r@),
{
    uuid::Uuid::new_v4().to_string()
}

/// The frame of a message.
pub fn write_msg(msg: &Msg) -> (r: Result<Vec<u8>, FrameError>)
    ensures
        r is Ok <==> fits(msg@),
        r matches Ok(b) ==> b@ == frame(kind_of(msg@), payload_of(msg@)),
        r matches Err(e) ==> e == FrameError::TooLarge,
{
    let mut members: Vec<Member> = Vec::new();
    let mut kind: u8 = T_HELLO;
    match msg {
        Msg::Hello { v } => {
            members.push(Member { key: owned("v"), value: JsonValue::Number(*v as u64) });
        },
        Msg::Text { id, body, ts_ms } => {
            kind = T_TEXT;
            members.push(
                Member { key: owned("body"), value: JsonValue::Text(owned(body.as_str())) },
            );
            members.push(Member { key: owned("id"), value: JsonValue::Text(owned(id.as_str())) });
            members.push(Member { key: owned("ts_ms"), value: JsonValue::Number(*ts_ms) });
        },
    }
    assert(json::member_rows(members@) =~= members_of(msg@));
    let payload = write_object(&members);
    frame_bytes(kind, payload.as_slice())
}

pub(crate) fn part_text(p: JsonPart) -> (r: String)
    ensures
        r@ == text_or_empty(p@),
{
    match p {
        JsonPart::Text(s) => s,
        _ => {
            let r: String = String::new();
            assert(r@ =~= Seq::<char>::empty());
            r
        },
    }
}

pub(crate) fn part_number(p: JsonPart) -> (r: u64)
    ensures
        r == number_or_zero(p@),
{
    match p {
        JsonPart::Number(n) => n,
        _ => 0,
    }
}

/// The message of a kind, from what its payload holds under the keys.
pub fn message_from(kind: u8, v: JsonPart, id: JsonPart, body: JsonPart, ts_ms: JsonPart) -> (r:
    Result<Msg, FrameError>)
    ensures
        message_row(r) == message_in(kind, v@, id@, body@, ts_ms@),
{
    let bad = match &v {
        JsonPart::Bad => true,
        _ => false,
    };
    if bad {
        return Err(FrameError::BadPayload);
    }
    if kind == T_HELLO {
        let n: u64 = part_number(v);
        Ok(Msg::Hello { v: (n % 65_536) as u16 })
    } else if kind == T_TEXT {
        Ok(Msg::Text { id: part_text(id), body: part_text(body), ts_ms: part_number(ts_ms) })
    } else {
        Err(FrameError::UnknownType)
    }
}

/// The message in the payload of a frame. What `write_msg` put there is read
/// back.
pub fn parse_msg(kind: u8, payload: &[u8]) -> (r: Result<Msg, FrameError>)
    ensures
        message_row(r) == message_of(kind, payload@),
        forall|m: MsgRow|
            kind == kind_of(m) && payload@ == #[trigger] payload_of(m) ==> message_row(r) == Ok::<
                MsgRow,
                FrameError,
            >(m),
{
    let v = read_member(payload, "v");
    let id = read_member(payload, "id");
    let body = read_member(payload, "body");
    let ts = read_member(payload, "ts_ms");
    proof {
        assert forall|m: MsgRow|
            kind == kind_of(m) && payload@ == #[trigger] payload_of(m) implies message_of(
            kind,
            payload@,
        ) == Ok::<MsgRow, FrameError>(m) by {
            lemma_members_of(m);
            let w = members_of(m);
            assert(payload@ == json::object_bytes(w));
            match m {
                MsgRow::Hello { v: n } => {
                    assert(w[0].key == "v"@);
                    assert(v@ == json::part_of(w[0].value));
                },
                MsgRow::Text { id: i, body: b, ts_ms: t } => {
                    assert(w[0].key == "body"@);
                    assert(w[1].key == "id"@);
                    assert(w[2].key == "ts_ms"@);
                    assert(body@ == json::part_of(w[0].value));
                    assert(id@ == json::part_of(w[1].value));
                    assert(ts@ == json::part_of(w[2].value));
                },
            }
            assert(!(v@ is Bad));
        }
    }
    message_from(kind, v, id, body, ts)
}

/// The message in the first frame of the input, and how many bytes the frame
/// takes. A message is read back from what was written of it, whatever follows.
pub fn read_msg(input: &[u8]) -> (r: Result<(Msg, usize), FrameError>)
    ensures
        r matches Ok((m, n)) ==> first_message(input@) == Ok::<MsgRow, FrameError>(m@) && n == 4
            + size_in(input@),
        r matches Err(e) ==> first_message(input@) == Err::<MsgRow, FrameError>(e),
        forall|m: MsgRow, rest: Seq<u8>|
            fits(m) && input@ == #[trigger] (frame(kind_of(m), payload_of(m)) + rest)
                ==> r is Ok && r->Ok_0.0@ == m && r->Ok_0.1 == frame(
                kind_of(m),
                payload_of(m),
            ).len(),
{
    proof {
        assert forall|m: MsgRow, rest: Seq<u8>|
            fits(m) && input@ == #[trigger] (frame(kind_of(m), payload_of(m)) + rest) implies
            first_frame(input@) == Ok::<(u8, Seq<u8>), FrameError>((kind_of(m), payload_of(m)))
            && size_in(input@) + 4 == frame(kind_of(m), payload_of(m)).len() by {
            law_frame_round_trip(kind_of(m), payload_of(m), rest);
        }
    }
    let total: usize = match frame_size(input) {
        Ok(n) => n,
        Err(e) => {
            return Err(e);
        },
    };
    if input.len() - 4 < total {
        return Err(FrameError::Truncated);
    }
    let payload = vstd::slice::slice_subrange(input, 5, 4 + total);
    match parse_msg(input[4], payload) {
        Ok(m) => Ok((m, 4 + total)),
        Err(e) => Err(e),
    }
}

/// A frame is found exactly where its size is neither zero nor above the limit and all of it is
/// there; then its payload is as long as its size says. Otherwise what is missing is told
/// from a size that cannot be.
pub proof fn law_frame_is_found_where_it_is_whole(input: Seq<u8>)
    ensures
        first_frame(input) is Ok <==> input.len() >= 4 && 1 <= size_in(input) <= 1_048_576
            && input.len() >= 4 + size_in(input),
        first_frame(input) matches Ok((kind, payload)) ==> payload.len() + 1 == size_in(input)
            && kind == input[4],
        first_frame(input) matches Err(e) ==> e is Truncated || e is SizeOutOfRange,
        first_frame(input) matches Err(e) ==> (e is SizeOutOfRange <==> input.len() >= 4 && !(1
            <= size_in(input) <= 1_048_576)),
{
}

/// A message fits exactly if its payload and the byte of its kind take at most a mebibyte.
pub proof fn law_message_fits_into_a_mebibyte(m: MsgRow)
    ensures
        fits(m) <==> payload_of(m).len() < 1_048_576,
{
}

/// What stands under the keys of a message is what the message says; what is missing is empty or
/// zero. A kind that is neither a greeting nor a text is refused.
pub proof fn law_message_says_what_its_keys_hold(
    v: u16,
    id: Seq<char>,
    body: Seq<char>,
    ts_ms: u64,
    kind: u8,
)
    ensures
        ({
            let no = json::PartRow::Missing;
            &&& message_in(T_HELLO, json::PartRow::Number(v as u64), no, no, no) == Ok::<
                MsgRow,
                FrameError,
            >(MsgRow::Hello { v })
            &&& message_in(
                T_TEXT,
                no,
                json::PartRow::Text(id),
                json::PartRow::Text(body),
                json::PartRow::Number(ts_ms),
            ) == Ok::<MsgRow, FrameError>(MsgRow::Text { id, body, ts_ms })
            &&& message_in(T_TEXT, no, no, json::PartRow::Text(body), no) == Ok::<
                MsgRow,
                FrameError,
            >(MsgRow::Text { id: Seq::empty(), body, ts_ms: 0 })
            &&& kind != T_HELLO && kind != T_TEXT ==> message_in(kind, no, no, no, no) == Err::<
                MsgRow,
                FrameError,
            >(FrameError::UnknownType)
        }),
{
}

} // verus!
