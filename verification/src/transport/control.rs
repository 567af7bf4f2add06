//! All that travels in frames: messages, the frames around a file, and the
//! frames of groups.

use crate::json;
use crate::json::{read_member, write_object, JsonPart, JsonValue, Member};
use crate::text::owned;
use crate::transport::proto;
use crate::transport::proto::{
    frame_bytes, frame_size, parse_msg, part_number, part_text, write_msg, FrameError, Msg,
    MAX_FRAME,
};
use vstd::prelude::*;

verus! {

/// The kind byte of a file offer.
pub const T_FILE_OFFER: u8 = 3;

/// The kind byte of an accepted offer.
pub const T_FILE_ACCEPT: u8 = 4;

/// The kind byte of a rejected offer.
pub const T_FILE_REJECT: u8 = 5;

/// The kind byte at the head of a file's bytes.
pub const T_FILE_START: u8 = 6;

/// The kind byte of a group's members.
pub const T_GROUP_INFO: u8 = 7;

/// The kind byte of a text in a group.
pub const T_GROUP_TEXT: u8 = 8;

/// The kind byte of a member's leaving.
pub const T_GROUP_LEAVE: u8 = 9;

/// What a frame carries.
#[derive(Debug, Clone, PartialEq)]
pub enum Frame {
    /// A greeting or a text message.
    Message(Msg),
    /// A file is offered.
    FileOffer { xfer_id: String, name: String, size: u64, blake3: String },
    /// The offer is accepted; the bytes up to the offset are there already.
    FileAccept { xfer_id: String, offset: u64 },
    /// The offer is rejected.
    FileReject { xfer_id: String },
    /// The file's bytes from the offset on follow.
    FileStart { xfer_id: String, offset: u64 },
    /// A frame of a group, as it stands.
    Group { kind: u8, payload: Vec<u8> },
}

/// What a frame carries, by value.
#[verifier::ext_equal]
pub enum FrameRow {
    Message(proto::MsgRow),
    FileOffer { xfer_id: Seq<char>, name: Seq<char>, size: u64, blake3: Seq<char> },
    FileAccept { xfer_id: Seq<char>, offset: u64 },
    FileReject { xfer_id: Seq<char> },
    FileStart { xfer_id: Seq<char>, offset: u64 },
    Group { kind: u8, payload: Seq<u8> },
}

impl View for Frame {
    type V = FrameRow;

    open spec fn view(&self) -> FrameRow {
        match *self {
            Frame::Message(m) => FrameRow::Message(m@),
            Frame::FileOffer { xfer_id, name, size, blake3 } => FrameRow::FileOffer {
                xfer_id: xfer_id@,
                name: name@,
                size,
                blake3: blake3@,
            },
            Frame::FileAccept { xfer_id, offset } => FrameRow::FileAccept {
                xfer_id: xfer_id@,
                offset,
            },
            Frame::FileReject { xfer_id } => FrameRow::FileReject { xfer_id: xfer_id@ },
            Frame::FileStart { xfer_id, offset } => FrameRow::FileStart {
                xfer_id: xfer_id@,
                offset,
            },
            Frame::Group { kind, payload } => FrameRow::Group { kind, payload: payload@ },
        }
    }
}

/// Whether a kind byte is one of a group's.
pub open spec fn is_group_kind(kind: u8) -> bool {
    kind == T_GROUP_INFO || kind == T_GROUP_TEXT || kind == T_GROUP_LEAVE
}

/// Whether a frame can be written as it is: a group's frame has a group's kind
/// and holds JSON.
pub open spec fn is_frame(f: FrameRow) -> bool {
    match f {
        FrameRow::Group { kind, payload } => is_group_kind(kind) && json::is_json(payload),
        _ => true,
    }
}

/// The kind byte of a frame.
pub open spec fn frame_kind(f: FrameRow) -> u8 {
    match f {
        FrameRow::Message(m) => proto::kind_of(m),
        FrameRow::FileOffer { .. } => T_FILE_OFFER,
        FrameRow::FileAccept { .. } => T_FILE_ACCEPT,
        FrameRow::FileReject { .. } => T_FILE_REJECT,
        FrameRow::FileStart { .. } => T_FILE_START,
        FrameRow::Group { kind, .. } => kind,
    }
}

/// The object that carries a frame around a file.
pub open spec fn file_members(f: FrameRow) -> Seq<json::MemberRow> {
    match f {
        FrameRow::FileOffer { xfer_id, name, size, blake3 } => seq![
            json::text_member("blake3"@, blake3),
            json::text_member("name"@, name),
            json::number_member("size"@, size),
            json::text_member("xfer_id"@, xfer_id),
        ],
        FrameRow::FileAccept { xfer_id, offset } => seq![
            json::number_member("offset"@, offset),
            json::text_member("xfer_id"@, xfer_id),
        ],
        FrameRow::FileReject { xfer_id } => seq![json::text_member("xfer_id"@, xfer_id)],
        FrameRow::FileStart { xfer_id, offset } => seq![
            json::number_member("offset"@, offset),
            json::text_member("xfer_id"@, xfer_id),
        ],
        _ => Seq::empty(),
    }
}

/// The payload of a frame.
pub open spec fn frame_payload(f: FrameRow) -> Seq<u8> {
    match f {
        FrameRow::Message(m) => proto::payload_of(m),
        FrameRow::Group { payload, .. } => payload,
        _ => json::object_bytes(file_members(f)),
    }
}

/// The frame about a file of a kind, from what its payload holds under the keys.
pub open spec fn file_frame_in(
    kind: u8,
    xfer_id: json::PartRow,
    offset: json::PartRow,
    name: json::PartRow,
    size: json::PartRow,
    blake3: json::PartRow,
) -> Option<FrameRow> {
    let xfer_id = proto::text_or_empty(xfer_id);
    let offset = proto::number_or_zero(offset);
    if kind == T_FILE_OFFER {
        Some(
            FrameRow::FileOffer {
                xfer_id,
                name: proto::text_or_empty(name),
                size: proto::number_or_zero(size),
                blake3: proto::text_or_empty(blake3),
            },
        )
    } else if kind == T_FILE_ACCEPT {
        Some(FrameRow::FileAccept { xfer_id, offset })
    } else if kind == T_FILE_REJECT {
        Some(FrameRow::FileReject { xfer_id })
    } else if kind == T_FILE_START {
        Some(FrameRow::FileStart { xfer_id, offset })
    } else {
        None
    }
}

/// The frame that a payload of a kind carries.
pub open spec fn frame_of(kind: u8, payload: Seq<u8>) -> Result<FrameRow, FrameError> {
    let file = file_frame_in(
        kind,
        json::json_member(payload, "xfer_id"@),
        json::json_member(payload, "offset"@),
        json::json_member(payload, "name"@),
        json::json_member(payload, "size"@),
        json::json_member(payload, "blake3"@),
    );
    if !json::is_json(payload) {
        Err(FrameError::BadPayload)
    } else if file is Some {
        Ok(file->0)
    } else if is_group_kind(kind) {
        Ok(FrameRow::Group { kind, payload })
    } else {
        match proto::message_of(kind, payload) {
            Ok(m) => Ok(FrameRow::Message(m)),
            Err(e) => Err(e),
        }
    }
}

/// The result of reading a frame by the values that it holds.
pub open spec fn frame_row(r: Result<Frame, FrameError>) -> Result<FrameRow, FrameError> {
    match r {
        Ok(f) => Ok(f@),
        Err(e) => Err(e),
    }
}

proof fn lemma_file_members(f: FrameRow)
    ensures
        json::well_keyed(file_members(f)),
        "xfer_id"@ != "name"@,
        "xfer_id"@ != "offset"@,
        "xfer_id"@ != "size"@,
        "xfer_id"@ != "blake3"@,
        "name"@ != "size"@,
        "name"@ != "blake3"@,
        "size"@ != "blake3"@,
{
    reveal_strlit("xfer_id");
    reveal_strlit("name");
    reveal_strlit("offset");
    reveal_strlit("size");
    reveal_strlit("blake3");
    assert("xfer_id"@.len() == 7);
    assert("name"@.len() == 4 && "name"@[0] == 'n');
    assert("offset"@.len() == 6 && "offset"@[0] == 'o');
    assert("size"@.len() == 4 && "size"@[0] == 's');
    assert("blake3"@.len() == 6 && "blake3"@[0] == 'b');
    let v = file_members(f);
    assert forall|i: int| 0 <= i < v.len() implies json::is_plain(#[trigger] v[i].key) by {
        let key = v[i].key;
        assert forall|j: int| 0 <= j < key.len() implies ('a' <= #[trigger] key[j] <= 'z' || '0'
            <= key[j] <= '9' || key[j] == '_') by {}
    }
}

fn text_of(key: &str, s: &str) -> (r: Member)
    ensures
        r@ == json::text_member(key@, s@),
{
    Member { key: owned(key), value: JsonValue::Text(owned(s)) }
}

fn number_of(key: &str, n: u64) -> (r: Member)
    ensures
        r@ == json::number_member(key@, n),
{
    Member { key: owned(key), value: JsonValue::Number(n) }
}

/// The bytes of a frame.
pub fn write_frame(f: &Frame) -> (r: Result<Vec<u8>, FrameError>)
    ensures
        r is Ok <==> frame_payload(f@).len() + 1 <= MAX_FRAME,
        r matches Ok(b) ==> b@ == proto::frame(frame_kind(f@), frame_payload(f@)),
        r matches Err(e) ==> e == FrameError::TooLarge,
{
    let mut members: Vec<Member> = Vec::new();
    let kind: u8;
    match f {
        Frame::Message(m) => {
            return write_msg(m);
        },
        Frame::Group { kind, payload } => {
            return frame_bytes(*kind, payload.as_slice());
        },
        Frame::FileOffer { xfer_id, name, size, blake3 } => {
            kind = T_FILE_OFFER;
            members.push(text_of("blake3", blake3.as_str()));
            members.push(text_of("name", name.as_str()));
            members.push(number_of("size", *size));
            members.push(text_of("xfer_id", xfer_id.as_str()));
        },
        Frame::FileAccept { xfer_id, offset } => {
            kind = T_FILE_ACCEPT;
            members.push(number_of("offset", *offset));
            members.push(text_of("xfer_id", xfer_id.as_str()));
        },
        Frame::FileReject { xfer_id } => {
            kind = T_FILE_REJECT;
            members.push(text_of("xfer_id", xfer_id.as_str()));
        },
        Frame::FileStart { xfer_id, offset } => {
            kind = T_FILE_START;
            members.push(number_of("offset", *offset));
            members.push(text_of("xfer_id", xfer_id.as_str()));
        },
    }
    assert(json::member_rows(members@) =~= file_members(f@));
    let payload = write_object(&members);
    frame_bytes(kind, payload.as_slice())
}

/// The frame about a file of a kind, from what its payload holds under the keys.
pub fn file_frame_from(
    kind: u8,
    xfer_id: JsonPart,
    offset: JsonPart,
    name: JsonPart,
    size: JsonPart,
    blake3: JsonPart,
) -> (r: Option<Frame>)
    ensures
        match r {
            Some(f) => file_frame_in(kind, xfer_id@, offset@, name@, size@, blake3@) == Some(f@),
            None => file_frame_in(kind, xfer_id@, offset@, name@, size@, blake3@) is None,
        },
{
    if kind == T_FILE_OFFER {
        Some(
            Frame::FileOffer {
                xfer_id: part_text(xfer_id),
                name: part_text(name),
                size: part_number(size),
                blake3: part_text(blake3),
            },
        )
    } else if kind == T_FILE_ACCEPT {
        Some(Frame::FileAccept { xfer_id: part_text(xfer_id), offset: part_number(offset) })
    } else if kind == T_FILE_REJECT {
        Some(Frame::FileReject { xfer_id: part_text(xfer_id) })
    } else if kind == T_FILE_START {
        Some(Frame::FileStart { xfer_id: part_text(xfer_id), offset: part_number(offset) })
    } else {
        None
    }
}

/// What a payload of a kind carries. What `write_frame` put there is read back.
pub fn parse_frame(kind: u8, payload: &[u8]) -> (r: Result<Frame, FrameError>)
    ensures
        frame_row(r) == frame_of(kind, payload@),
        forall|f: FrameRow|
            is_frame(f) && kind == frame_kind(f) && payload@ == #[trigger] frame_payload(f)
                ==> frame_row(r) == Ok::<FrameRow, FrameError>(f),
{
    let xfer_id = read_member(payload, "xfer_id");
    let offset = read_member(payload, "offset");
    let name = read_member(payload, "name");
    let size = read_member(payload, "size");
    let blake3 = read_member(payload, "blake3");
    let msg = parse_msg(kind, payload);
    proof {
        assert(json::is_json(payload@) == !(xfer_id@ is Bad));
        assert forall|f: FrameRow|
            is_frame(f) && kind == frame_kind(f) && payload@ == #[trigger] frame_payload(
                f,
            ) implies frame_of(kind, payload@) == Ok::<FrameRow, FrameError>(f) by {
            match f {
                FrameRow::Message(m) => {
                    assert(payload@ == proto::payload_of(m));
                    assert(proto::message_row(msg) == Ok::<proto::MsgRow, FrameError>(m));
                },
                FrameRow::Group { .. } => {},
                _ => {
                    lemma_file_members(f);
                    let w = file_members(f);
                    assert(payload@ == json::object_bytes(w));
                    match f {
                        FrameRow::FileOffer { .. } => {
                            assert(w[0].key == "blake3"@);
                            assert(w[1].key == "name"@);
                            assert(w[2].key == "size"@);
                            assert(w[3].key == "xfer_id"@);
                        },
                        FrameRow::FileReject { .. } => {
                            assert(w[0].key == "xfer_id"@);
                        },
                        _ => {
                            assert(w[0].key == "offset"@);
                            assert(w[1].key == "xfer_id"@);
                        },
                    }
                    assert(!(xfer_id@ is Bad));
                },
            }
        }
    }
    let bad = match &xfer_id {
        JsonPart::Bad => true,
        _ => false,
    };
    if bad {
        return Err(FrameError::BadPayload);
    }
    if let Some(f) = file_frame_from(kind, xfer_id, offset, name, size, blake3) {
        return Ok(f);
    }
    if kind == T_GROUP_INFO || kind == T_GROUP_TEXT || kind == T_GROUP_LEAVE {
        Ok(Frame::Group { kind, payload: vstd::slice::slice_to_vec(payload) })
    } else {
        match msg {
            Ok(m) => Ok(Frame::Message(m)),
            Err(e) => Err(e),
        }
    }
}

/// What the first frame of the input carries.
pub open spec fn first_in(input: Seq<u8>) -> Result<FrameRow, FrameError> {
    match proto::first_frame(input) {
        Ok((kind, payload)) => frame_of(kind, payload),
        Err(e) => Err(e),
    }
}

/// What the first frame of the input carries, and how many bytes it takes. A
/// frame is read back from what was written of it, whatever follows.
pub fn read_frame(input: &[u8]) -> (r: Result<(Frame, usize), FrameError>)
    ensures
        r matches Ok((f, n)) ==> first_in(input@) == Ok::<FrameRow, FrameError>(f@) && n == 4
            + proto::size_in(input@),
        r matches Err(e) ==> first_in(input@) == Err::<FrameRow, FrameError>(e),
        forall|f: FrameRow, rest: Seq<u8>|
            is_frame(f) && frame_payload(f).len() + 1 <= MAX_FRAME && input@ == #[trigger] (
            proto::frame(frame_kind(f), frame_payload(f)) + rest) ==> r is Ok && r->Ok_0.0@ == f
                && r->Ok_0.1 == proto::frame(frame_kind(f), frame_payload(f)).len(),
{
    proof {
        assert forall|f: FrameRow, rest: Seq<u8>|
            is_frame(f) && frame_payload(f).len() + 1 <= MAX_FRAME && input@ == #[trigger] (
            proto::frame(frame_kind(f), frame_payload(f)) + rest) implies proto::first_frame(input@)
            == Ok::<(u8, Seq<u8>), FrameError>((frame_kind(f), frame_payload(f)))
            && proto::size_in(input@) + 4 == proto::frame(
            frame_kind(f),
            frame_payload(f),
        ).len() by {
            proto::law_frame_round_trip(frame_kind(f), frame_payload(f), rest);
        }
    }
    let total: usize = match frame_size(input) {
        Ok(n) => n,
        Err(e) => {
            return Err(e);
        },
    };
    if input.len() - 4 < total {
        return Err(FrameError::Truncated);
    }
    let payload = vstd::slice::slice_subrange(input, 5, 4 + total);
    match parse_frame(input[4], payload) {
        Ok(f) => Ok((f, 4 + total)),
        Err(e) => Err(e),
    }
}

/// Frames of different kinds are told apart by their first byte.
pub proof fn law_kinds_tell_frames_apart(f: FrameRow, g: FrameRow)
    requires
        is_frame(f),
        is_frame(g),
        frame_kind(f) == frame_kind(g),
    ensures
        f is FileOffer <==> g is FileOffer,
        f is FileAccept <==> g is FileAccept,
        f is FileReject <==> g is FileReject,
        f is FileStart <==> g is FileStart,
        f is Group <==> g is Group,
        f is Message <==> g is Message,
        f matches FrameRow::Message(m) ==> g matches FrameRow::Message(n) ==> (m is Text <==> n
            is Text),
{
}

/// Every frame can be written as it is, and one of a group if it has one of the three kinds of a
/// group and its payload is JSON.
pub proof fn law_every_frame_can_be_written(f: FrameRow)
    ensures
        !(f is Group) ==> is_frame(f),
        f matches FrameRow::Group { kind, payload } ==> (is_frame(f) <==> (kind == T_GROUP_INFO
            || kind == T_GROUP_TEXT || kind == T_GROUP_LEAVE) && json::is_json(payload)),
{
}

/// What stands under the keys of a frame about a file is what the frame says; what is missing,
/// or is no text or no number, is empty or zero. A kind that is none of a file is none.
pub proof fn law_frame_says_what_its_keys_hold(
    xfer_id: Seq<char>,
    name: Seq<char>,
    blake3: Seq<char>,
    offset: u64,
    size: u64,
    kind: u8,
)
    ensures
        ({
            let id = json::PartRow::Text(xfer_id);
            let at = json::PartRow::Number(offset);
            let n = json::PartRow::Text(name);
            let z = json::PartRow::Number(size);
            let b = json::PartRow::Text(blake3);
            let no = json::PartRow::Missing;
            &&& file_frame_in(T_FILE_OFFER, id, no, n, z, b) == Some(
                FrameRow::FileOffer { xfer_id, name, size, blake3 },
            )
            &&& file_frame_in(T_FILE_ACCEPT, id, at, no, no, no) == Some(
                FrameRow::FileAccept { xfer_id, offset },
            )
            &&& file_frame_in(T_FILE_REJECT, id, no, no, no, no) == Some(
                FrameRow::FileReject { xfer_id },
            )
            &&& file_frame_in(T_FILE_START, id, at, no, no, no) == Some(
                FrameRow::FileStart { xfer_id, offset },
            )
            &&& file_frame_in(T_FILE_ACCEPT, id, no, no, no, no) == Some(
                FrameRow::FileAccept { xfer_id, offset: 0 },
            )
            &&& file_frame_in(kind, id, at, n, z, b) is Some <==> kind == T_FILE_OFFER || kind
                == T_FILE_ACCEPT || kind == T_FILE_REJECT || kind == T_FILE_START
        }),
{
}

} // verus!
