//! What the transport decides: which connection a frame belongs to, which
//! offers are open, where the bytes of a file may go, which address is called
//! next, and when a kept connection is given up.
//!
//! A file's bytes travel on a connection of their own, which the sender opens.
//! Its first frame is a `FileStart`; that of any other connection is a greeting.

use crate::addr::IpAddr;
use crate::groups;
use crate::groups::Group;
use crate::moment::{Instant, MILLISECOND};
use crate::net_ifaces;
use crate::net_ifaces::{sort_by_affinity, IfaceSnapshot};
use crate::net_scope;
use crate::net_scope::{NetScope, ScopeEntry};
use crate::reach;
use crate::reach::allowed_addrs;
use crate::seqs;
use crate::table::{Keyed, Table};
use crate::text;
use crate::text::{owned, same_text};
use crate::transport::control;
use crate::transport::control::Frame;
use crate::transport::filexfer;
use crate::transport::filexfer::{safe_basename, XferError};
use crate::transport::proto;
use crate::transport::proto::{new_id, now_ms, FrameError, Msg, PROTO_V};
use vstd::prelude::*;
use vstd::string::StringExecFns;

verus! {

/// The port that is listened on where it is free.
pub const DEFAULT_PORT: u16 = 24917;

/// How long a call may take, in nanoseconds.
pub const CONNECT_TIMEOUT: u64 = 5_000_000_000;

/// The least time between two reports of progress, in nanoseconds.
pub const PROGRESS_THROTTLE: u64 = 150_000_000;

/// Why something could not be sent.
#[derive(Debug, Clone, PartialEq, Eq)]
pub enum TransportError {
    Io(String),
    Tls(String),
    Rustls(String),
    /// The peer has no address.
    NoAddress,
}

impl TransportError {
    /// The message for the user.
    pub open spec fn message(self) -> Seq<char> {
        match self {
            TransportError::Io(why) => "io: "@ + why@,
            TransportError::Tls(why) => "tls: "@ + why@,
            TransportError::Rustls(why) => "rustls: "@ + why@,
            TransportError::NoAddress => "对端无可用地址"@,
        }
    }

    /// The message for the user.
    pub fn to_text(&self) -> (r: String)
        ensures
            r@ == self.message(),
    {
        match self {
            TransportError::Io(why) => {
                let mut s = owned("io: ");
                s.append(why.as_str());
                s
            },
            TransportError::Tls(why) => {
                let mut s = owned("tls: ");
                s.append(why.as_str());
                s
            },
            TransportError::Rustls(why) => {
                let mut s = owned("rustls: ");
                s.append(why.as_str());
                s
            },
            TransportError::NoAddress => owned("对端无可用地址"),
        }
    }
}

/// A text message that came in.
#[derive(Debug, Clone, PartialEq)]
pub struct MessageEvent {
    /// The conversation: the peer's fingerprint, or the id of a group.
    pub peer_fp: String,
    pub id: String,
    pub body: String,
    pub ts_ms: u64,
    /// Who sent it, in a group.
    pub sender_fp: Option<String>,
}

/// What is kept of a text message that was sent.
#[derive(Debug, Clone, PartialEq)]
pub struct SentText {
    pub id: String,
    pub ts_ms: u64,
}

/// What the transport reports.
#[derive(Debug, Clone, PartialEq)]
pub enum TransportEvent {
    Message(MessageEvent),
    FileOffered { xfer_id: String, peer_fp: String, name: String, size: u64, is_dir: bool },
    FileProgress { xfer_id: String, done: u64, total: u64 },
    FileDone { xfer_id: String, path: String },
    FileFailed { xfer_id: String, reason: String },
    /// A frame of a group; the sender is the one at the other end.
    Group { from_fp: String, msg: Frame },
    /// The list of groups has changed.
    GroupsChanged(Vec<Group>),
}

/// A file that was offered.
#[derive(Debug, Clone, PartialEq)]
pub struct FileHandle {
    pub xfer_id: String,
}

/// What the transport reports, by value.
#[verifier::ext_equal]
pub enum EventRow {
    Message {
        peer_fp: Seq<char>,
        id: Seq<char>,
        body: Seq<char>,
        ts_ms: u64,
        sender_fp: Option<Seq<char>>,
    },
    FileOffered {
        xfer_id: Seq<char>,
        peer_fp: Seq<char>,
        name: Seq<char>,
        size: u64,
        is_dir: bool,
    },
    FileProgress { xfer_id: Seq<char>, done: u64, total: u64 },
    FileDone { xfer_id: Seq<char>, path: Seq<char> },
    FileFailed { xfer_id: Seq<char>, reason: Seq<char> },
    Group { from_fp: Seq<char>, msg: control::FrameRow },
    GroupsChanged(Seq<groups::GroupRow>),
}

impl View for TransportEvent {
    type V = EventRow;

    open spec fn view(&self) -> EventRow {
        match *self {
            TransportEvent::Message(m) => EventRow::Message {
                peer_fp: m.peer_fp@,
                id: m.id@,
                body: m.body@,
                ts_ms: m.ts_ms,
                sender_fp: text::opt_text(m.sender_fp),
            },
            TransportEvent::FileOffered { xfer_id, peer_fp, name, size, is_dir } =>
                EventRow::FileOffered {
                xfer_id: xfer_id@,
                peer_fp: peer_fp@,
                name: name@,
                size,
                is_dir,
            },
            TransportEvent::FileProgress { xfer_id, done, total } => EventRow::FileProgress {
                xfer_id: xfer_id@,
                done,
                total,
            },
            TransportEvent::FileDone { xfer_id, path } => EventRow::FileDone {
                xfer_id: xfer_id@,
                path: path@,
            },
            TransportEvent::FileFailed { xfer_id, reason } => EventRow::FileFailed {
                xfer_id: xfer_id@,
                reason: reason@,
            },
            TransportEvent::Group { from_fp, msg } => EventRow::Group {
                from_fp: from_fp@,
                msg: msg@,
            },
            TransportEvent::GroupsChanged(v) => EventRow::GroupsChanged(groups::group_rows(v@)),
        }
    }
}

fn failed(xfer_id: &str, reason: &str) -> (r: TransportEvent)
    ensures
        r@ == (EventRow::FileFailed { xfer_id: xfer_id@, reason: reason@ }),
{
    TransportEvent::FileFailed { xfer_id: owned(xfer_id), reason: owned(reason) }
}

// ---------------------------------------------------------------------------
// Listening and calling
// ---------------------------------------------------------------------------

/// The port to try where the preferred one cannot be had: any that is free,
/// unless any was asked for.
pub fn fallback_port(preferred: u16) -> (r: Option<u16>)
    ensures
        r == (if preferred == 0 {
            None::<u16>
        } else {
            Some(0u16)
        }),
{
    if preferred != 0 {
        Some(0)
    } else {
        None
    }
}

/// The greeting at the start of a connection.
pub open spec fn greeting() -> control::FrameRow {
    control::FrameRow::Message(proto::MsgRow::Hello { v: PROTO_V })
}

/// The greeting at the start of a connection.
pub fn hello_frame() -> (r: Frame)
    ensures
        r@ == greeting(),
{
    Frame::Message(Msg::Hello { v: PROTO_V })
}

/// The first frame of a connection that carries a file's bytes.
pub open spec fn data_start(xfer_id: Seq<char>, offset: u64) -> control::FrameRow {
    control::FrameRow::FileStart { xfer_id, offset }
}

/// The first frame of a connection that carries a file's bytes.
pub fn data_frame(xfer_id: &str, offset: u64) -> (r: Frame)
    ensures
        r@ == data_start(xfer_id@, offset),
{
    Frame::FileStart { xfer_id: owned(xfer_id), offset }
}

/// A call that goes through a peer's addresses.
#[derive(Debug)]
pub struct Dialing {
    addrs: Vec<IpAddr>,
    at: usize,
    last: Option<String>,
}

/// A call by the values that matter.
#[verifier::ext_equal]
pub struct DialingRow {
    pub addrs: Seq<IpAddr>,
    /// How many addresses have been tried.
    pub tried: nat,
    /// Why the last of them failed.
    pub last: Option<Seq<char>>,
}

impl View for Dialing {
    type V = DialingRow;

    closed spec fn view(&self) -> DialingRow {
        DialingRow {
            addrs: self.addrs@,
            tried: self.at as nat,
            last: text::opt_text(self.last),
        }
    }
}

impl Dialing {
    #[verifier::type_invariant]
    spec fn inv(self) -> bool {
        &&& self.at <= self.addrs@.len()
        &&& self.last is Some <==> self.at > 0
    }

    /// Starts to call through the addresses, in this order.
    pub fn new(addrs: Vec<IpAddr>) -> (r: Self)
        ensures
            r@ == (DialingRow { addrs: addrs@, tried: 0, last: None }),
    {
        Dialing { addrs, at: 0, last: None }
    }

    /// The address to call next.
    pub fn next(&self) -> (r: Option<IpAddr>)
        ensures
            self@.tried <= self@.addrs.len(),
            r is Some <==> self@.tried < self@.addrs.len(),
            r matches Some(a) ==> a == self@.addrs[self@.tried as int],
    {
        proof {
            use_type_invariant(self);
        }
        if self.at < self.addrs.len() {
            Some(self.addrs[self.at])
        } else {
            None
        }
    }

    /// Notes that the address could not be called.
    pub fn failed(&mut self, why: String)
        requires
            old(self)@.tried < old(self)@.addrs.len(),
        ensures
            final(self)@ == (DialingRow {
                addrs: old(self)@.addrs,
                tried: old(self)@.tried + 1,
                last: Some(why@),
            }),
    {
        proof {
            use_type_invariant(&*self);
        }
        let addrs = crate::roster::copy_addrs(&self.addrs);
        let at: usize = self.at;
        assert(at < addrs.len());
        *self = Dialing { addrs, at: at + 1, last: Some(why) };
    }

    /// What is reported once no address is left: why the last one failed, or
    /// that there was none.
    pub fn error(&self) -> (r: TransportError)
        ensures
            match self@.last {
                Some(why) => r matches TransportError::Io(s) && s@ == why,
                None => r is NoAddress,
            },
            self@.tried == self@.addrs.len() ==> (r is NoAddress <==> self@.addrs.len() == 0),
    {
        proof {
            use_type_invariant(self);
        }
        match &self.last {
            Some(why) => TransportError::Io(owned(why.as_str())),
            None => TransportError::NoAddress,
        }
    }
}

/// What reading from a kept connection without waiting has shown.
#[derive(Debug, Clone, Copy, PartialEq, Eq, Structural)]
pub enum ProbeRead {
    /// The connection could not be asked.
    CannotProbe,
    /// The other end has closed it.
    Eof,
    /// There were bytes, which the other end has no business sending.
    Data,
    /// There is nothing to read.
    WouldBlock,
    /// Reading failed.
    Failed,
}

/// Whether a kept connection is to be given up. One that cannot be asked is
/// kept: writing to it will tell.
pub fn conn_is_dead(read: ProbeRead) -> (r: bool)
    ensures
        r == (read is Eof || read is Data || read is Failed),
{
    match read {
        ProbeRead::CannotProbe => false,
        ProbeRead::Eof => true,
        ProbeRead::Data => true,
        ProbeRead::WouldBlock => false,
        ProbeRead::Failed => true,
    }
}

/// A step in sending a frame over a kept connection, or over a new one.
#[derive(Debug, Clone, Copy, PartialEq, Eq, Structural)]
pub enum SendStep {
    /// See whether the kept connection is alive.
    Probe,
    /// Write to the kept connection.
    WriteKept,
    /// Call the peer.
    Dial,
    /// Write to the new connection.
    WriteFresh,
    /// The frame is sent.
    Done,
    /// The frame cannot be sent.
    Failed,
}

/// What becomes of the kept connection.
#[derive(Debug, Clone, Copy, PartialEq, Eq, Structural)]
pub enum KeptChange {
    /// It stays as it is.
    Same,
    /// It is dropped.
    Drop,
    /// The new connection is kept.
    Keep,
}

/// How many steps are left at most.
pub open spec fn steps_left(s: SendStep) -> nat {
    match s {
        SendStep::Probe => 4,
        SendStep::WriteKept => 3,
        SendStep::Dial => 2,
        SendStep::WriteFresh => 1,
        SendStep::Done => 0,
        SendStep::Failed => 0,
    }
}

/// The step after one that went well, or did not, and what becomes of the kept
/// connection.
pub open spec fn step_after(s: SendStep, ok: bool) -> (SendStep, KeptChange) {
    match s {
        SendStep::Probe => if ok {
            (SendStep::WriteKept, KeptChange::Same)
        } else {
            (SendStep::Dial, KeptChange::Drop)
        },
        SendStep::WriteKept => if ok {
            (SendStep::Done, KeptChange::Same)
        } else {
            (SendStep::Dial, KeptChange::Drop)
        },
        SendStep::Dial => if ok {
            (SendStep::WriteFresh, KeptChange::Same)
        } else {
            (SendStep::Failed, KeptChange::Same)
        },
        SendStep::WriteFresh => if ok {
            (SendStep::Done, KeptChange::Keep)
        } else {
            (SendStep::Failed, KeptChange::Same)
        },
        SendStep::Done => (SendStep::Done, KeptChange::Same),
        SendStep::Failed => (SendStep::Failed, KeptChange::Same),
    }
}

/// The first step.
pub fn send_first(kept: bool) -> (r: SendStep)
    ensures
        r == (if kept {
            SendStep::Probe
        } else {
            SendStep::Dial
        }),
{
    if kept {
        SendStep::Probe
    } else {
        SendStep::Dial
    }
}

/// The step after one that went well, or did not, and what becomes of the kept
/// connection.
pub fn send_next(s: SendStep, ok: bool) -> (r: (SendStep, KeptChange))
    ensures
        r == step_after(s, ok),
{
    match s {
        SendStep::Probe => {
            if ok {
                (SendStep::WriteKept, KeptChange::Same)
            } else {
                (SendStep::Dial, KeptChange::Drop)
            }
        },
        SendStep::WriteKept => {
            if ok {
                (SendStep::Done, KeptChange::Same)
            } else {
                (SendStep::Dial, KeptChange::Drop)
            }
        },
        SendStep::Dial => {
            if ok {
                (SendStep::WriteFresh, KeptChange::Same)
            } else {
                (SendStep::Failed, KeptChange::Same)
            }
        },
        SendStep::WriteFresh => {
            if ok {
                (SendStep::Done, KeptChange::Keep)
            } else {
                (SendStep::Failed, KeptChange::Same)
            }
        },
        SendStep::Done => (SendStep::Done, KeptChange::Same),
        SendStep::Failed => (SendStep::Failed, KeptChange::Same),
    }
}

/// Sending goes forward with every step, whatever comes of it, so a peer is
/// called at most once for a frame, and sending ends.
pub proof fn law_sending_goes_forward(s: SendStep, ok: bool)
    requires
        s !is Done,
        s !is Failed,
    ensures
        steps_left(step_after(s, ok).0) < steps_left(s),
        step_after(s, ok).0 is Done ==> ok && (s is WriteKept || s is WriteFresh),
        step_after(s, ok).0 is Dial ==> step_after(s, ok).1 is Drop,
        step_after(s, ok).1 is Keep <==> s is WriteFresh && ok,
{
}

/// A frame counts as sent exactly if it was written, and as not sent exactly if the
/// peer could not be called or the write to the new connection failed. A kept
/// connection that is alive is written to, without a call; one that is dead, or
/// that cannot be written to, is dropped, and the peer is called.
pub proof fn law_sending_ends_as_the_writes_do(s: SendStep, ok: bool)
    requires
        s !is Done,
        s !is Failed,
    ensures
        step_after(s, ok).0 is Done <==> ok && (s is WriteKept || s is WriteFresh),
        step_after(s, ok).0 is Failed <==> !ok && (s is Dial || s is WriteFresh),
        step_after(s, ok).0 is Dial <==> !ok && (s is Probe || s is WriteKept),
        step_after(s, ok).0 is WriteKept <==> ok && s is Probe,
        step_after(s, ok).0 is WriteFresh <==> ok && s is Dial,
        step_after(s, ok).1 is Drop <==> !ok && (s is Probe || s is WriteKept),
{
}

// ---------------------------------------------------------------------------
// Progress
// ---------------------------------------------------------------------------

/// Keeps reports of progress apart in time.
#[derive(Debug, Clone, Copy, PartialEq, Eq, Structural)]
pub struct ProgressGate {
    pub last: Option<Instant>,
}

/// Whether progress is reported: the end always, anything else if the last
/// report is long enough ago.
pub open spec fn report_due(last: Option<Instant>, done: u64, total: u64, now: Instant) -> bool {
    done == total || match last {
        None => true,
        Some(t) => now.elapsed_since(t) >= PROGRESS_THROTTLE,
    }
}

impl ProgressGate {
    /// Nothing has been reported.
    pub fn new() -> (r: Self)
        ensures
            r.last is None,
    {
        ProgressGate { last: None }
    }

    /// Whether progress is reported; notes the time if so.
    pub fn due(&mut self, done: u64, total: u64, now: Instant) -> (r: bool)
        ensures
            r == report_due(old(self).last, done, total, now),
            final(self).last == (if r {
                Some(now)
            } else {
                old(self).last
            }),
    {
        let due = done == total || match self.last {
            None => true,
            Some(t) => now.since(t) >= PROGRESS_THROTTLE,
        };
        if due {
            self.last = Some(now);
        }
        due
    }
}

// ---------------------------------------------------------------------------
// The files in transit
// ---------------------------------------------------------------------------

/// An offer that has not been answered.
#[derive(Debug, Clone, PartialEq)]
pub struct PendingOffer {
    pub xfer_id: String,
    pub peer_fp: String,
    pub name: String,
    pub size: u64,
    pub blake3: String,
    /// The connection on which the answer is awaited.
    pub conn: u64,
}

/// An accepted file whose bytes have not come.
#[derive(Debug, Clone, PartialEq)]
pub struct IncomingState {
    pub xfer_id: String,
    pub peer_fp: String,
    pub download_dir: String,
    pub name: String,
    pub size: u64,
    pub blake3: String,
    /// Where the bytes have to begin.
    pub offset: u64,
}

/// An own offer that has not been answered.
#[derive(Debug, Clone, PartialEq)]
pub struct OutgoingFile {
    pub xfer_id: String,
    pub path: String,
    pub size: u64,
}

/// An offer by value.
#[verifier::ext_equal]
pub struct PendingRow {
    pub xfer_id: Seq<char>,
    pub peer_fp: Seq<char>,
    pub name: Seq<char>,
    pub size: u64,
    pub blake3: Seq<char>,
    pub conn: u64,
}

/// An accepted file by value.
#[verifier::ext_equal]
pub struct IncomingRow {
    pub xfer_id: Seq<char>,
    pub peer_fp: Seq<char>,
    pub download_dir: Seq<char>,
    pub name: Seq<char>,
    pub size: u64,
    pub blake3: Seq<char>,
    pub offset: u64,
}

/// An own offer by value.
#[verifier::ext_equal]
pub struct OutgoingRow {
    pub xfer_id: Seq<char>,
    pub path: Seq<char>,
    pub size: u64,
}

impl View for PendingOffer {
    type V = PendingRow;

    open spec fn view(&self) -> PendingRow {
        PendingRow {
            xfer_id: self.xfer_id@,
            peer_fp: self.peer_fp@,
            name: self.name@,
            size: self.size,
            blake3: self.blake3@,
            conn: self.conn,
        }
    }
}

impl View for IncomingState {
    type V = IncomingRow;

    open spec fn view(&self) -> IncomingRow {
        IncomingRow {
            xfer_id: self.xfer_id@,
            peer_fp: self.peer_fp@,
            download_dir: self.download_dir@,
            name: self.name@,
            size: self.size,
            blake3: self.blake3@,
            offset: self.offset,
        }
    }
}

impl View for OutgoingFile {
    type V = OutgoingRow;

    open spec fn view(&self) -> OutgoingRow {
        OutgoingRow { xfer_id: self.xfer_id@, path: self.path@, size: self.size }
    }
}

impl Keyed for PendingOffer {
    open spec fn key(self) -> Seq<char> {
        self.xfer_id@
    }

    fn has_key(&self, k: &str) -> (r: bool) {
        same_text(self.xfer_id.as_str(), k)
    }
}

impl Keyed for IncomingState {
    open spec fn key(self) -> Seq<char> {
        self.xfer_id@
    }

    fn has_key(&self, k: &str) -> (r: bool) {
        same_text(self.xfer_id.as_str(), k)
    }
}

impl Keyed for OutgoingFile {
    open spec fn key(self) -> Seq<char> {
        self.xfer_id@
    }

    fn has_key(&self, k: &str) -> (r: bool) {
        same_text(self.xfer_id.as_str(), k)
    }
}

/// The files in transit, by the id of the transfer.
#[verifier::ext_equal]
pub struct Transit {
    /// Offers of others that have not been answered.
    pub pending: Map<Seq<char>, PendingRow>,
    /// Accepted files whose bytes have not come.
    pub incoming: Map<Seq<char>, IncomingRow>,
    /// Own offers that have not been answered.
    pub outgoing: Map<Seq<char>, OutgoingRow>,
}

/// Nothing is in transit.
pub open spec fn no_transit() -> Transit {
    Transit { pending: Map::empty(), incoming: Map::empty(), outgoing: Map::empty() }
}

/// What a new connection is for, as its first frame tells.
#[derive(Debug, Clone, PartialEq)]
pub enum FirstRoute {
    /// Messages and offers of this peer.
    Messages { peer_fp: String },
    /// The bytes of a file of this peer.
    FileData { xfer_id: String, offset: u64, peer_fp: String },
    /// Nothing: it is dropped.
    Drop,
}

/// What a new connection is for, by value.
#[verifier::ext_equal]
pub enum RouteRow {
    Messages { peer_fp: Seq<char> },
    FileData { xfer_id: Seq<char>, offset: u64, peer_fp: Seq<char> },
    Drop,
}

impl View for FirstRoute {
    type V = RouteRow;

    open spec fn view(&self) -> RouteRow {
        match *self {
            FirstRoute::Messages { peer_fp } => RouteRow::Messages { peer_fp: peer_fp@ },
            FirstRoute::FileData { xfer_id, offset, peer_fp } => RouteRow::FileData {
                xfer_id: xfer_id@,
                offset,
                peer_fp: peer_fp@,
            },
            FirstRoute::Drop => RouteRow::Drop,
        }
    }
}

/// What a new connection is for.
pub open spec fn route_of(
    first: Result<control::FrameRow, FrameError>,
    peer_fp: Option<Seq<char>>,
) -> RouteRow {
    match (first, peer_fp) {
        (Ok(control::FrameRow::Message(proto::MsgRow::Hello { .. })), Some(fp)) =>
            RouteRow::Messages { peer_fp: fp },
        (Ok(control::FrameRow::FileStart { xfer_id, offset }), Some(fp)) => RouteRow::FileData {
            xfer_id,
            offset,
            peer_fp: fp,
        },
        _ => RouteRow::Drop,
    }
}

/// What a new connection is for. One that begins with anything but a greeting
/// or the start of a file, or whose other end is not known, is dropped.
pub fn route_first(first: Result<Frame, FrameError>, peer_fp: Option<String>) -> (r: FirstRoute)
    ensures
        r@ == route_of(control::frame_row(first), text::opt_text(peer_fp)),
{
    match (first, peer_fp) {
        (Ok(Frame::Message(Msg::Hello { .. })), Some(fp)) => FirstRoute::Messages { peer_fp: fp },
        (Ok(Frame::FileStart { xfer_id, offset }), Some(fp)) => FirstRoute::FileData {
            xfer_id,
            offset,
            peer_fp: fp,
        },
        _ => FirstRoute::Drop,
    }
}

/// What follows from a frame on a connection for messages.
#[derive(Debug, Clone, PartialEq)]
pub enum ReadStep {
    /// The next frame is read.
    GoOn,
    /// The event is reported and the next frame is read.
    Report(TransportEvent),
    /// The event is reported, the answer is awaited and written, and the
    /// connection is closed. A connection that waited for the answer to an
    /// offer under the same id is closed at once.
    Await(TransportEvent, Option<u64>),
    /// The connection is closed.
    Close,
}

/// What follows from a frame, by value.
#[verifier::ext_equal]
pub enum StepRow {
    GoOn,
    Report(EventRow),
    Await(EventRow, Option<u64>),
    Close,
}

impl View for ReadStep {
    type V = StepRow;

    open spec fn view(&self) -> StepRow {
        match *self {
            ReadStep::GoOn => StepRow::GoOn,
            ReadStep::Report(e) => StepRow::Report(e@),
            ReadStep::Await(e, displaced) => StepRow::Await(e@, displaced),
            ReadStep::Close => StepRow::Close,
        }
    }
}

/// What follows from a frame on a connection for messages, and what is in
/// transit then.
pub open spec fn after_frame(
    t: Transit,
    conn: u64,
    peer_fp: Seq<char>,
    f: Result<control::FrameRow, FrameError>,
) -> (Transit, StepRow) {
    match f {
        Err(_) => (t, StepRow::Close),
        Ok(control::FrameRow::Message(proto::MsgRow::Text { id, body, ts_ms })) => (
            t,
            StepRow::Report(EventRow::Message { peer_fp, id, body, ts_ms, sender_fp: None }),
        ),
        Ok(control::FrameRow::FileOffer { xfer_id, name, size, blake3 }) => (
            Transit {
                pending: t.pending.insert(
                    xfer_id,
                    PendingRow { xfer_id, peer_fp, name, size, blake3, conn },
                ),
                ..t
            },
            StepRow::Await(
                EventRow::FileOffered { xfer_id, peer_fp, name, size, is_dir: false },
                if t.pending.dom().contains(xfer_id) {
                    Some(t.pending[xfer_id].conn)
                } else {
                    None
                },
            ),
        ),
        Ok(control::FrameRow::Group { kind, payload }) => (
            t,
            StepRow::Report(
                EventRow::Group {
                    from_fp: peer_fp,
                    msg: control::FrameRow::Group { kind, payload },
                },
            ),
        ),
        Ok(_) => (t, StepRow::GoOn),
    }
}

/// What comes of the first frame of a connection with a file's bytes: where the
/// bytes go, or why they are refused. What was awaited is awaited no longer.
pub open spec fn after_file_start(
    t: Transit,
    xfer_id: Seq<char>,
    offset: u64,
    peer_fp: Seq<char>,
) -> (Transit, Result<IncomingRow, Seq<char>>) {
    let rest = Transit { incoming: t.incoming.remove(xfer_id), ..t };
    if !t.incoming.dom().contains(xfer_id) {
        (rest, Err("未知或已处理的传输"@))
    } else if t.incoming[xfer_id].peer_fp != peer_fp {
        (rest, Err("数据连接对端指纹与报价方不符"@))
    } else if t.incoming[xfer_id].offset != offset {
        (rest, Err("续传位置不一致"@))
    } else {
        (rest, Ok(t.incoming[xfer_id]))
    }
}

/// The frame that offers a file. A file without a name is called `file`.
pub open spec fn offer_frame(
    xfer_id: Seq<char>,
    file_name: Option<Seq<char>>,
    size: u64,
    blake3: Seq<char>,
) -> control::FrameRow {
    control::FrameRow::FileOffer {
        xfer_id,
        name: match file_name {
            Some(n) => n,
            None => "file"@,
        },
        size,
        blake3,
    }
}

/// What is in transit once a file was offered.
pub open spec fn after_offer(t: Transit, xfer_id: Seq<char>, path: Seq<char>, size: u64) -> Transit {
    Transit { outgoing: t.outgoing.insert(xfer_id, OutgoingRow { xfer_id, path, size }), ..t }
}

/// What is in transit once an own offer could not be made.
pub open spec fn after_failed_offer(t: Transit, xfer_id: Seq<char>) -> Transit {
    Transit { outgoing: t.outgoing.remove(xfer_id), ..t }
}

/// What is done with the answer to an own offer.
#[derive(Debug, Clone, PartialEq)]
pub enum ReplyStep {
    /// The file is sent from the offset on.
    SendFile { path: String, size: u64, offset: u64 },
    /// The offer is no longer known.
    Nothing,
    /// The failure is reported.
    Report(TransportEvent),
}

/// What is done with the answer to an own offer, by value.
#[verifier::ext_equal]
pub enum ReplyRow {
    SendFile { path: Seq<char>, size: u64, offset: u64 },
    Nothing,
    Report(EventRow),
}

impl View for ReplyStep {
    type V = ReplyRow;

    open spec fn view(&self) -> ReplyRow {
        match *self {
            ReplyStep::SendFile { path, size, offset } => ReplyRow::SendFile {
                path: path@,
                size,
                offset,
            },
            ReplyStep::Nothing => ReplyRow::Nothing,
            ReplyStep::Report(e) => ReplyRow::Report(e@),
        }
    }
}

/// What is done with the answer to an own offer, and what is in transit then.
pub open spec fn after_reply(
    t: Transit,
    xfer_id: Seq<char>,
    reply: Result<control::FrameRow, FrameError>,
) -> (Transit, ReplyRow) {
    let rest = Transit { outgoing: t.outgoing.remove(xfer_id), ..t };
    let step = match reply {
        Ok(control::FrameRow::FileAccept { offset, .. }) => if t.outgoing.dom().contains(xfer_id) {
            ReplyRow::SendFile {
                path: t.outgoing[xfer_id].path,
                size: t.outgoing[xfer_id].size,
                offset,
            }
        } else {
            ReplyRow::Nothing
        },
        Ok(control::FrameRow::FileReject { .. }) => ReplyRow::Report(
            EventRow::FileFailed { xfer_id, reason: "对端已拒绝"@ },
        ),
        Err(_) => ReplyRow::Report(EventRow::FileFailed { xfer_id, reason: "对端无响应"@ }),
        Ok(_) => ReplyRow::Report(
            EventRow::FileFailed { xfer_id, reason: "未收到有效的 Accept/Reject 回复"@ },
        ),
    };
    (rest, step)
}

/// The answer to an offer: the connection it goes to, the frame, and what is
/// reported besides.
#[derive(Debug, Clone, PartialEq)]
pub struct OfferAnswer {
    pub conn: u64,
    pub frame: Frame,
    pub event: Option<TransportEvent>,
}

/// The answer to an offer by value.
#[verifier::ext_equal]
pub struct AnswerRow {
    pub conn: u64,
    pub frame: control::FrameRow,
    pub event: Option<EventRow>,
}

/// An event by value, if there is one.
pub open spec fn event_row(e: Option<TransportEvent>) -> Option<EventRow> {
    match e {
        Some(e) => Some(e@),
        None => None,
    }
}

impl View for OfferAnswer {
    type V = AnswerRow;

    open spec fn view(&self) -> AnswerRow {
        AnswerRow { conn: self.conn, frame: self.frame@, event: event_row(self.event) }
    }
}

/// An answer by value, if there is one.
pub open spec fn answer_row(a: Option<OfferAnswer>) -> Option<AnswerRow> {
    match a {
        Some(a) => Some(a@),
        None => None,
    }
}

/// The answer to an offer, and what is in transit then. An offer that is not
/// known, or has been answered, is passed over. An accepted file under a name
/// that is no plain file name is rejected.
pub open spec fn after_decision(
    t: Transit,
    xfer_id: Seq<char>,
    accept: bool,
    download_dir: Seq<char>,
    part_len: u64,
) -> (Transit, Option<AnswerRow>) {
    if !t.pending.dom().contains(xfer_id) {
        (t, None)
    } else {
        let po = t.pending[xfer_id];
        let rest = Transit { pending: t.pending.remove(xfer_id), ..t };
        let reject = control::FrameRow::FileReject { xfer_id };
        if !accept {
            (rest, Some(AnswerRow { conn: po.conn, frame: reject, event: None }))
        } else if !filexfer::is_plain_name(po.name) {
            (
                rest,
                Some(
                    AnswerRow {
                        conn: po.conn,
                        frame: reject,
                        event: Some(EventRow::FileFailed { xfer_id, reason: "非法文件名"@ }),
                    },
                ),
            )
        } else {
            (
                Transit {
                    incoming: rest.incoming.insert(
                        xfer_id,
                        IncomingRow {
                            xfer_id,
                            peer_fp: po.peer_fp,
                            download_dir,
                            name: po.name,
                            size: po.size,
                            blake3: po.blake3,
                            offset: part_len,
                        },
                    ),
                    ..rest
                },
                Some(
                    AnswerRow {
                        conn: po.conn,
                        frame: control::FrameRow::FileAccept { xfer_id, offset: part_len },
                        event: None,
                    },
                ),
            )
        }
    }
}

/// The addresses through which a peer is called: those in scope, the near ones
/// first.
pub open spec fn call_order(
    entries: Seq<ScopeEntry>,
    near: Option<Seq<net_ifaces::IfaceRow>>,
    addrs: Seq<IpAddr>,
) -> Seq<IpAddr> {
    match near {
        Some(rows) => net_ifaces::near_first(reach::in_scope(entries, addrs), rows),
        None => reach::in_scope(entries, addrs),
    }
}

/// The transport of one peer.
#[derive(Debug)]
pub struct TransportManager {
    port: u16,
    ifaces: Option<IfaceSnapshot>,
    scope: NetScope,
    pending: Table<PendingOffer>,
    incoming: Table<IncomingState>,
    outgoing: Table<OutgoingFile>,
}

impl TransportManager {
    /// The port that is listened on.
    pub closed spec fn listens_on(&self) -> u16 {
        self.port
    }

    /// The interfaces by which addresses are put in order, if they are known.
    pub closed spec fn near_to(&self) -> Option<Seq<net_ifaces::IfaceRow>> {
        match self.ifaces {
            Some(s) => Some(net_ifaces::rows(s.entries@)),
            None => None,
        }
    }

    /// The scope of the peers that are spoken to.
    pub closed spec fn speaks_to(&self) -> Seq<ScopeEntry> {
        self.scope@
    }

    /// The files in transit.
    pub closed spec fn transit(&self) -> Transit {
        Transit {
            pending: self.pending@.map_values(|p: PendingOffer| p@),
            incoming: self.incoming@.map_values(|p: IncomingState| p@),
            outgoing: self.outgoing@.map_values(|p: OutgoingFile| p@),
        }
    }

    /// A transport that listens on a port.
    pub fn start(port: u16) -> (r: Self)
        ensures
            r.listens_on() == port,
            r.near_to() is None,
            r.speaks_to().len() == 0,
            r.transit() == no_transit(),
    {
        let r = TransportManager {
            port,
            ifaces: None,
            scope: NetScope::unrestricted(),
            pending: Table::new(),
            incoming: Table::new(),
            outgoing: Table::new(),
        };
        assert(r.transit() =~= no_transit());
        r
    }

    /// The port that is listened on.
    pub fn port(&self) -> (r: u16)
        ensures
            r == self.listens_on(),
    {
        self.port
    }

    /// Takes note of the interfaces in use.
    pub fn set_iface_rx(&mut self, snapshot: IfaceSnapshot)
        ensures
            final(self).near_to() == Some(net_ifaces::rows(snapshot.entries@)),
            final(self).speaks_to() == old(self).speaks_to(),
            final(self).transit() == old(self).transit(),
            final(self).listens_on() == old(self).listens_on(),
    {
        self.ifaces = Some(snapshot);
    }

    /// The addresses in the order in which they are called: those in one of our
    /// subnets first. Without interfaces the order stays.
    pub fn affinity_sorted_addrs(&self, addrs: &Vec<IpAddr>) -> (r: Vec<IpAddr>)
        ensures
            r@ == (match self.near_to() {
                Some(rows) => net_ifaces::near_first(addrs@, rows),
                None => addrs@,
            }),
    {
        let mut sorted = crate::roster::copy_addrs(addrs);
        match &self.ifaces {
            Some(s) => {
                sort_by_affinity(&mut sorted, s.entries.as_slice());
            },
            None => {},
        }
        sorted
    }

    /// Speaks from now on to the peers in a scope alone.
    pub fn set_scope(&mut self, scope: NetScope)
        ensures
            final(self).speaks_to() == scope@,
            final(self).near_to() == old(self).near_to(),
            final(self).transit() == old(self).transit(),
            final(self).listens_on() == old(self).listens_on(),
    {
        self.scope = scope;
    }

    /// Whether a connection from an address is accepted.
    pub fn accepts(&self, from: IpAddr) -> (r: bool)
        ensures
            r == net_scope::ip_allowed(self.speaks_to(), from),
    {
        self.scope.allows(from)
    }

    /// Starts a call through those of a peer's addresses that are in scope.
    pub fn dial(&self, addrs: &Vec<IpAddr>) -> (r: Dialing)
        ensures
            r@ == (DialingRow {
                addrs: call_order(self.speaks_to(), self.near_to(), addrs@),
                tried: 0,
                last: None,
            }),
    {
        let allowed = allowed_addrs(&self.scope, addrs);
        let sorted = self.affinity_sorted_addrs(&allowed);
        Dialing::new(sorted)
    }

    /// Takes in a frame on a connection for messages.
    pub fn read_loop(
        &mut self,
        conn: u64,
        peer_fp: &str,
        frame: Result<Frame, FrameError>,
    ) -> (r: ReadStep)
        ensures
            (final(self).transit(), r@) == after_frame(
                old(self).transit(),
                conn,
                peer_fp@,
                control::frame_row(frame),
            ),
            final(self).near_to() == old(self).near_to(),
            final(self).speaks_to() == old(self).speaks_to(),
            final(self).listens_on() == old(self).listens_on(),
    {
        let ghost before = self.transit();
        match frame {
            Err(_) => ReadStep::Close,
            Ok(Frame::Message(Msg::Text { id, body, ts_ms })) => ReadStep::Report(
                TransportEvent::Message(
                    MessageEvent { peer_fp: owned(peer_fp), id, body, ts_ms, sender_fp: None },
                ),
            ),
            Ok(Frame::FileOffer { xfer_id, name, size, blake3 }) => {
                let event = TransportEvent::FileOffered {
                    xfer_id: owned(xfer_id.as_str()),
                    peer_fp: owned(peer_fp),
                    name: owned(name.as_str()),
                    size,
                    is_dir: false,
                };
                let key = owned(xfer_id.as_str());
                let po = PendingOffer {
                    xfer_id,
                    peer_fp: owned(peer_fp),
                    name,
                    size,
                    blake3,
                    conn,
                };
                let ghost row = po@;
                let displaced: Option<u64> = match self.pending.get(key.as_str()) {
                    Some(waiting) => Some(waiting.conn),
                    None => None,
                };
                self.pending.insert(po, key.as_str());
                assert(self.transit().pending =~= before.pending.insert(key@, row));
                assert(self.transit().incoming =~= before.incoming);
                assert(self.transit().outgoing =~= before.outgoing);
                ReadStep::Await(event, displaced)
            },
            Ok(Frame::Group { kind, payload }) => ReadStep::Report(
                TransportEvent::Group {
                    from_fp: owned(peer_fp),
                    msg: Frame::Group { kind, payload },
                },
            ),
            Ok(_) => ReadStep::GoOn,
        }
    }

    /// Takes in the first frame of a connection with a file's bytes: where they
    /// go, or what is reported because they are refused.
    pub fn handle_file_receive(&mut self, xfer_id: &str, offset: u64, peer_fp: &str) -> (r: Result<
        IncomingState,
        TransportEvent,
    >)
        ensures
            ({
                let (t, out) = after_file_start(old(self).transit(), xfer_id@, offset, peer_fp@);
                &&& final(self).transit() == t
                &&& match r {
                    Ok(s) => out == Ok::<IncomingRow, Seq<char>>(s@),
                    Err(e) => out is Err && e@ == (EventRow::FileFailed {
                        xfer_id: xfer_id@,
                        reason: out->Err_0,
                    }),
                }
            }),
            final(self).near_to() == old(self).near_to(),
            final(self).speaks_to() == old(self).speaks_to(),
            final(self).listens_on() == old(self).listens_on(),
    {
        let ghost before = self.transit();
        let taken = self.incoming.remove(xfer_id);
        assert(self.transit().incoming =~= before.incoming.remove(xfer_id@));
        assert(self.transit().pending =~= before.pending);
        assert(self.transit().outgoing =~= before.outgoing);
        match taken {
            None => Err(failed(xfer_id, "未知或已处理的传输")),
            Some(s) => {
                assert(s@ == before.incoming[xfer_id@]);
                if !same_text(s.peer_fp.as_str(), peer_fp) {
                    return Err(failed(xfer_id, "数据连接对端指纹与报价方不符"));
                }
                if s.offset != offset {
                    return Err(failed(xfer_id, "续传位置不一致"));
                }
                Ok(s)
            },
        }
    }

    /// Notes an own offer under an id, and makes the frame that offers it. A
    /// file without a name is called `file`.
    pub fn offer_file_as(
        &mut self,
        xfer_id: String,
        path: &str,
        file_name: Option<String>,
        size: u64,
        blake3: String,
    ) -> (r: (FileHandle, Frame))
        ensures
            r.0.xfer_id@ == xfer_id@,
            r.1@ == offer_frame(xfer_id@, text::opt_text(file_name), size, blake3@),
            final(self).transit() == after_offer(old(self).transit(), xfer_id@, path@, size),
            final(self).near_to() == old(self).near_to(),
            final(self).speaks_to() == old(self).speaks_to(),
            final(self).listens_on() == old(self).listens_on(),
    {
        let ghost before = self.transit();
        let name = match file_name {
            Some(n) => n,
            None => owned("file"),
        };
        let key = owned(xfer_id.as_str());
        let entry = OutgoingFile { xfer_id: owned(xfer_id.as_str()), path: owned(path), size };
        let ghost row = entry@;
        self.outgoing.insert(entry, key.as_str());
        assert(self.transit().outgoing =~= before.outgoing.insert(key@, row));
        assert(self.transit().incoming =~= before.incoming);
        assert(self.transit().pending =~= before.pending);
        let handle = FileHandle { xfer_id: owned(xfer_id.as_str()) };
        (handle, Frame::FileOffer { xfer_id, name, size, blake3 })
    }

    /// Offers a file under a new id.
    pub fn offer_file(
        &mut self,
        path: &str,
        file_name: Option<String>,
        size: u64,
        blake3: String,
    ) -> (r: (FileHandle, Frame))
        ensures
            proto::is_random_id(r.0.xfer_id@),
            r.1@ == offer_frame(r.0.xfer_id@, text::opt_text(file_name), size, blake3@),
            final(self).transit() == after_offer(old(self).transit(), r.0.xfer_id@, path@, size),
            final(self).near_to() == old(self).near_to(),
            final(self).speaks_to() == old(self).speaks_to(),
            final(self).listens_on() == old(self).listens_on(),
    {
        let id = new_id();
        self.offer_file_as(id, path, file_name, size, blake3)
    }

    /// Forgets an own offer that could not be made.
    pub fn offer_failed(&mut self, xfer_id: &str)
        ensures
            final(self).transit() == after_failed_offer(old(self).transit(), xfer_id@),
            final(self).near_to() == old(self).near_to(),
            final(self).speaks_to() == old(self).speaks_to(),
            final(self).listens_on() == old(self).listens_on(),
    {
        let ghost before = self.transit();
        let _ = self.outgoing.remove(xfer_id);
        assert(self.transit().outgoing =~= before.outgoing.remove(xfer_id@));
        assert(self.transit().incoming =~= before.incoming);
        assert(self.transit().pending =~= before.pending);
    }

    /// Takes in the answer to an own offer, or that none came.
    pub fn await_offer_reply(
        &mut self,
        xfer_id: &str,
        reply: Result<Frame, FrameError>,
    ) -> (r: ReplyStep)
        ensures
            (final(self).transit(), r@) == after_reply(
                old(self).transit(),
                xfer_id@,
                control::frame_row(reply),
            ),
            final(self).near_to() == old(self).near_to(),
            final(self).speaks_to() == old(self).speaks_to(),
            final(self).listens_on() == old(self).listens_on(),
    {
        let ghost before = self.transit();
        let entry = self.outgoing.remove(xfer_id);
        assert(self.transit().outgoing =~= before.outgoing.remove(xfer_id@));
        assert(self.transit().incoming =~= before.incoming);
        assert(self.transit().pending =~= before.pending);
        match reply {
            Ok(Frame::FileAccept { offset, .. }) => {
                match entry {
                    Some(e) => {
                        assert(e@ == before.outgoing[xfer_id@]);
                        ReplyStep::SendFile { path: e.path, size: e.size, offset }
                    },
                    None => ReplyStep::Nothing,
                }
            },
            Ok(Frame::FileReject { .. }) => ReplyStep::Report(failed(xfer_id, "对端已拒绝")),
            Err(_) => ReplyStep::Report(failed(xfer_id, "对端无响应")),
            Ok(_) => ReplyStep::Report(
                failed(xfer_id, "未收到有效的 Accept/Reject 回复"),
            ),
        }
    }

    /// The name under which an open offer offers its file.
    pub fn offered_name(&self, xfer_id: &str) -> (r: Option<String>)
        ensures
            r is Some <==> self.transit().pending.dom().contains(xfer_id@),
            r matches Some(n) ==> n@ == self.transit().pending[xfer_id@].name,
    {
        match self.pending.get(xfer_id) {
            Some(p) => Some(owned(p.name.as_str())),
            None => None,
        }
    }

    /// Answers an offer. `part_len` is the size of the file's part file in the
    /// directory, zero if there is none.
    pub fn respond_file(
        &mut self,
        xfer_id: &str,
        accept: bool,
        download_dir: &str,
        part_len: u64,
    ) -> (r: Option<OfferAnswer>)
        ensures
            (final(self).transit(), answer_row(r)) == after_decision(
                old(self).transit(),
                xfer_id@,
                accept,
                download_dir@,
                part_len,
            ),
            final(self).near_to() == old(self).near_to(),
            final(self).speaks_to() == old(self).speaks_to(),
            final(self).listens_on() == old(self).listens_on(),
    {
        let ghost before = self.transit();
        let taken = self.pending.remove(xfer_id);
        assert(self.transit().pending =~= before.pending.remove(xfer_id@));
        assert(self.transit().incoming =~= before.incoming);
        assert(self.transit().outgoing =~= before.outgoing);
        let po = match taken {
            Some(po) => po,
            None => {
                assert(before.pending.remove(xfer_id@) =~= before.pending);
                return None;
            },
        };
        assert(po@ == before.pending[xfer_id@]);
        if !accept {
            return Some(
                OfferAnswer {
                    conn: po.conn,
                    frame: Frame::FileReject { xfer_id: owned(xfer_id) },
                    event: None,
                },
            );
        }
        let name = match safe_basename(po.name.as_str()) {
            Some(n) => n,
            None => {
                return Some(
                    OfferAnswer {
                        conn: po.conn,
                        frame: Frame::FileReject { xfer_id: owned(xfer_id) },
                        event: Some(failed(xfer_id, "非法文件名")),
                    },
                );
            },
        };
        let state = IncomingState {
            xfer_id: owned(xfer_id),
            peer_fp: po.peer_fp,
            download_dir: owned(download_dir),
            name,
            size: po.size,
            blake3: po.blake3,
            offset: part_len,
        };
        let ghost row = state@;
        let ghost middle = self.transit();
        self.incoming.insert(state, xfer_id);
        assert(self.transit().incoming =~= middle.incoming.insert(xfer_id@, row));
        assert(self.transit().pending =~= middle.pending);
        assert(self.transit().outgoing =~= middle.outgoing);
        Some(
            OfferAnswer {
                conn: po.conn,
                frame: Frame::FileAccept { xfer_id: owned(xfer_id), offset: part_len },
                event: None,
            },
        )
    }
}

/// What is reported once a file was received, or was not.
pub fn receive_event(xfer_id: &str, outcome: Result<String, XferError>) -> (r: TransportEvent)
    ensures
        r@ == (match outcome {
            Ok(path) => EventRow::FileDone { xfer_id: xfer_id@, path: path@ },
            Err(e) => EventRow::FileFailed { xfer_id: xfer_id@, reason: e.message() },
        }),
{
    match outcome {
        Ok(path) => TransportEvent::FileDone { xfer_id: owned(xfer_id), path },
        Err(e) => TransportEvent::FileFailed { xfer_id: owned(xfer_id), reason: e.to_text() },
    }
}

/// What is reported once a file was sent, or was not.
pub fn send_event(xfer_id: &str, path: &str, outcome: Result<(), TransportError>) -> (r:
    TransportEvent)
    ensures
        r@ == (match outcome {
            Ok(_) => EventRow::FileDone { xfer_id: xfer_id@, path: path@ },
            Err(e) => EventRow::FileFailed { xfer_id: xfer_id@, reason: e.message() },
        }),
{
    match outcome {
        Ok(_) => TransportEvent::FileDone { xfer_id: owned(xfer_id), path: owned(path) },
        Err(e) => TransportEvent::FileFailed { xfer_id: owned(xfer_id), reason: e.to_text() },
    }
}

/// A text message under a new id and the current time, and what is kept of it.
pub fn new_text(body: &str) -> (r: (Frame, SentText))
    ensures
        proto::is_random_id(r.1.id@),
        r.0@ == control::FrameRow::Message(
            proto::MsgRow::Text { id: r.1.id@, body: body@, ts_ms: r.1.ts_ms },
        ),
{
    let id = new_id();
    let ts_ms: u64 = now_ms();
    let sent = SentText { id: owned(id.as_str()), ts_ms };
    (Frame::Message(Msg::Text { id, body: owned(body), ts_ms }), sent)
}

// ---------------------------------------------------------------------------
// Laws
// ---------------------------------------------------------------------------

/// An address is dialed exactly if it was given and is in scope.
pub proof fn law_outside_is_never_dialed(
    entries: Seq<ScopeEntry>,
    near: Option<Seq<net_ifaces::IfaceRow>>,
    addrs: Seq<IpAddr>,
    x: IpAddr,
)
    ensures
        call_order(entries, near, addrs).contains(x) <==> addrs.contains(x)
            && net_scope::ip_allowed(entries, x),
{
    let p = |a: IpAddr| net_scope::ip_allowed(entries, a);
    let s = reach::in_scope(entries, addrs);
    seqs::lemma_filter_contains(addrs, p, x);
    if let Some(rows) = near {
        let q = |a: IpAddr| net_ifaces::is_near(a, rows);
        let r = |a: IpAddr| !net_ifaces::is_near(a, rows);
        seqs::lemma_filter_contains(s, q, x);
        seqs::lemma_filter_contains(s, r, x);
        let a = s.filter(q);
        let b = s.filter(r);
        assert(net_ifaces::near_first(s, rows) =~= a + b);
        if a.contains(x) {
            let k = choose|k: int| 0 <= k < a.len() && a[k] == x;
            assert((a + b)[k] == x);
        }
        if b.contains(x) {
            let k = choose|k: int| 0 <= k < b.len() && b[k] == x;
            assert((a + b)[a.len() + k] == x);
        }
        if (a + b).contains(x) {
            let k = choose|k: int| 0 <= k < (a + b).len() && (a + b)[k] == x;
            if k < a.len() {
                assert(a[k] == x);
            } else {
                assert(b[k - a.len()] == x);
            }
        }
    }
}

/// An offer is answered once: a second decision is passed over.
pub proof fn law_offer_is_answered_once(
    t: Transit,
    xfer_id: Seq<char>,
    accept: bool,
    dir: Seq<char>,
    part_len: u64,
    again: bool,
    other_dir: Seq<char>,
    other_len: u64,
)
    ensures
        ({
            let after = after_decision(t, xfer_id, accept, dir, part_len).0;
            after_decision(after, xfer_id, again, other_dir, other_len) == (
                after,
                None::<AnswerRow>,
            )
        }),
{
}

/// A rejected offer leaves nothing behind that bytes could be received for.
pub proof fn law_rejected_offer_leaves_nothing(
    t: Transit,
    xfer_id: Seq<char>,
    dir: Seq<char>,
    part_len: u64,
)
    ensures
        after_decision(t, xfer_id, false, dir, part_len).0.incoming == t.incoming,
        after_decision(t, xfer_id, false, dir, part_len).0.outgoing == t.outgoing,
{
}

/// Whatever is accepted is put under a plain file name, and exactly what the
/// answer says is awaited: the bytes of the peer who offered, from the offset on.
pub proof fn law_accepted_file_is_awaited(
    t: Transit,
    xfer_id: Seq<char>,
    dir: Seq<char>,
    part_len: u64,
)
    requires
        t.pending.dom().contains(xfer_id),
        filexfer::is_plain_name(t.pending[xfer_id].name),
    ensures
        ({
            let (after, answer) = after_decision(t, xfer_id, true, dir, part_len);
            &&& answer->0.frame == (control::FrameRow::FileAccept { xfer_id, offset: part_len })
            &&& answer->0.conn == t.pending[xfer_id].conn
            &&& after_file_start(after, xfer_id, part_len, t.pending[xfer_id].peer_fp).1
                == Ok::<IncomingRow, Seq<char>>(after.incoming[xfer_id])
            &&& filexfer::is_plain_name(after.incoming[xfer_id].name)
            &&& after.incoming[xfer_id].download_dir == dir
        }),
{
}

/// Bytes of a file are taken once, from the peer who offered it, at the offset
/// that was agreed on; anything else is refused and ends the waiting.
pub proof fn law_file_bytes_are_taken_once(
    t: Transit,
    xfer_id: Seq<char>,
    offset: u64,
    peer_fp: Seq<char>,
    other_offset: u64,
    other_fp: Seq<char>,
)
    ensures
        ({
            let (after, out) = after_file_start(t, xfer_id, offset, peer_fp);
            &&& out matches Ok(s) ==> t.incoming.dom().contains(xfer_id) && s
                == t.incoming[xfer_id] && s.peer_fp == peer_fp && s.offset == offset
            &&& after_file_start(after, xfer_id, other_offset, other_fp).1 is Err
            &&& forall|id: Seq<char>|
                id != xfer_id ==> (#[trigger] after.incoming.dom().contains(id)
                    == t.incoming.dom().contains(id)) && (t.incoming.dom().contains(id)
                    ==> after.incoming[id] == t.incoming[id])
        }),
{
}

/// Whatever the answer to an own offer is, the offer is open no longer, so the
/// file is sent once at most.
pub proof fn law_own_offer_is_closed_by_its_answer(
    t: Transit,
    xfer_id: Seq<char>,
    reply: Result<control::FrameRow, FrameError>,
    again: Result<control::FrameRow, FrameError>,
)
    ensures
        ({
            let after = after_reply(t, xfer_id, reply).0;
            !(after_reply(after, xfer_id, again).1 is SendFile)
        }),
{
}

/// Nothing that carries content is lost on a connection for messages: a text is
/// reported with its id, its body, its time and the fingerprint of the other end, and
/// a frame of a group, of whatever kind and with whatever payload, is reported as
/// it is, as one from the other end. The files in transit are not touched.
pub proof fn law_content_is_reported(
    t: Transit,
    conn: u64,
    peer_fp: Seq<char>,
    id: Seq<char>,
    body: Seq<char>,
    ts_ms: u64,
    kind: u8,
    payload: Seq<u8>,
)
    ensures
        ({
            let f = control::FrameRow::Message(proto::MsgRow::Text { id, body, ts_ms });
            let (after, step) = after_frame(t, conn, peer_fp, Ok(f));
            &&& after == t
            &&& step matches StepRow::Report(EventRow::Message {
                peer_fp: from,
                id: i,
                body: b,
                ts_ms: at,
                sender_fp,
            }) && from == peer_fp && i == id && b == body && at == ts_ms && sender_fp is None
        }),
        ({
            let f = control::FrameRow::Group { kind, payload };
            let (after, step) = after_frame(t, conn, peer_fp, Ok(f));
            &&& after == t
            &&& step matches StepRow::Report(EventRow::Group { from_fp, msg }) && from_fp == peer_fp
                && msg == f
        }),
{
}

/// Every offer of a file is reported with all that it says and the fingerprint of
/// the other end, and is kept with the connection that waits for the answer. Under
/// an id that was in use the new offer takes the place of the old one, whose
/// connection is given up. All other offers stay as they are.
pub proof fn law_offer_is_reported_and_kept(
    t: Transit,
    conn: u64,
    peer_fp: Seq<char>,
    xfer_id: Seq<char>,
    name: Seq<char>,
    size: u64,
    blake3: Seq<char>,
    other: Seq<char>,
)
    ensures
        ({
            let f = control::FrameRow::FileOffer { xfer_id, name, size, blake3 };
            let (after, step) = after_frame(t, conn, peer_fp, Ok(f));
            let kept = after.pending[xfer_id];
            &&& step matches StepRow::Await(EventRow::FileOffered {
                xfer_id: i,
                peer_fp: from,
                name: n,
                size: z,
                is_dir,
            }, displaced) && i == xfer_id && from == peer_fp && n == name && z == size && !is_dir
                && displaced == (if t.pending.dom().contains(xfer_id) {
                Some(t.pending[xfer_id].conn)
            } else {
                None
            })
            &&& after.pending.dom() == t.pending.dom().insert(xfer_id)
            &&& kept.xfer_id == xfer_id && kept.peer_fp == peer_fp && kept.name == name && kept.size
                == size && kept.blake3 == blake3 && kept.conn == conn
            &&& other != xfer_id && t.pending.dom().contains(other) ==> after.pending[other]
                == t.pending[other]
            &&& after.incoming == t.incoming
            &&& after.outgoing == t.outgoing
        }),
{
}

/// A connection for messages ends with the first thing on it that is no frame, and
/// with nothing else but an offer. A frame without content is passed over. Neither
/// changes anything in transit.
pub proof fn law_connection_ends_at_a_fault(
    t: Transit,
    conn: u64,
    peer_fp: Seq<char>,
    f: Result<control::FrameRow, FrameError>,
)
    ensures
        after_frame(t, conn, peer_fp, f).1 is Close <==> f is Err,
        after_frame(t, conn, peer_fp, f).1 is Await <==> f is Ok && f->Ok_0 is FileOffer,
        after_frame(t, conn, peer_fp, f).1 is Report <==> f is Ok && (f->Ok_0 is Group
            || (f->Ok_0 matches control::FrameRow::Message(m) && m is Text)),
        !(after_frame(t, conn, peer_fp, f).1 is Await) ==> after_frame(t, conn, peer_fp, f).0 == t,
{
}

/// A connection that begins with our greeting is one for messages of the peer at
/// its other end, and one that begins with our start of a file carries that file's
/// bytes from that offset. Where it is not known who is at the other end, and after
/// any frame with content, it is dropped.
pub proof fn law_connections_are_told_apart(
    fp: Seq<char>,
    xfer_id: Seq<char>,
    offset: u64,
    first: Result<control::FrameRow, FrameError>,
)
    ensures
        route_of(Ok(greeting()), Some(fp)) matches RouteRow::Messages { peer_fp } && peer_fp == fp,
        greeting() matches control::FrameRow::Message(proto::MsgRow::Hello { v }) && v
            == crate::PROTOCOL_VERSION,
        route_of(Ok(data_start(xfer_id, offset)), Some(fp)) matches RouteRow::FileData {
            xfer_id: i,
            offset: o,
            peer_fp,
        } && i == xfer_id && o == offset && peer_fp == fp,
        route_of(first, None) is Drop,
        first is Err || first->Ok_0 is FileOffer || first->Ok_0 is FileAccept
            || first->Ok_0 is FileReject || first->Ok_0 is Group || (
        first->Ok_0 matches control::FrameRow::Message(m) && m is Text) ==> route_of(first, Some(fp))
            is Drop,
{
}

/// An offer says what the file is: its size, its digest and its name, or a name for
/// a file that has none. The path and the size are kept for the answer, and
/// nothing else in transit changes. Where the offer could not be made, it is
/// forgotten again.
pub proof fn law_offer_says_what_is_kept(
    t: Transit,
    xfer_id: Seq<char>,
    path: Seq<char>,
    file_name: Option<Seq<char>>,
    size: u64,
    blake3: Seq<char>,
    other: Seq<char>,
)
    ensures
        offer_frame(xfer_id, file_name, size, blake3) matches control::FrameRow::FileOffer {
            xfer_id: i,
            name,
            size: z,
            blake3: b,
        } && i == xfer_id && z == size && b == blake3 && (file_name matches Some(n) ==> name == n) && (
        file_name is None ==> name == "file"@ && filexfer::is_plain_name(name)),
        ({
            let after = after_offer(t, xfer_id, path, size);
            let kept = after.outgoing[xfer_id];
            &&& after.outgoing.dom() == t.outgoing.dom().insert(xfer_id)
            &&& kept.xfer_id == xfer_id && kept.path == path && kept.size == size
            &&& !after_failed_offer(t, xfer_id).outgoing.dom().contains(xfer_id)
            &&& other != xfer_id && t.outgoing.dom().contains(other) ==> after_failed_offer(
                t,
                xfer_id,
            ).outgoing.dom().contains(other) && after_failed_offer(t, xfer_id).outgoing[other]
                == t.outgoing[other]
            &&& after_failed_offer(t, xfer_id).pending == t.pending
            &&& after_failed_offer(t, xfer_id).incoming == t.incoming
            &&& other != xfer_id && t.outgoing.dom().contains(other) ==> after.outgoing[other]
                == t.outgoing[other]
            &&& after.pending == t.pending
            &&& after.incoming == t.incoming
            &&& !t.outgoing.dom().contains(xfer_id) ==> after_failed_offer(after, xfer_id) == t
        }),
{
    reveal_strlit("file");
    reveal_strlit("..");
    reveal_strlit(".");
    assert("file"@.len() == 4 && "file"@[0] == 'f');
    assert(".."@.len() == 2 && "."@.len() == 1);
    assert(filexfer::is_plain_name("file"@));
    let after = after_offer(t, xfer_id, path, size);
    if !t.outgoing.dom().contains(xfer_id) {
        assert(after_failed_offer(after, xfer_id).outgoing =~= t.outgoing);
    }
}

/// Where an own offer is accepted from an offset on, the file that was offered is
/// sent, by its path and with its size, from exactly that offset on. Other
/// offers, and what is awaited, stay as they are.
pub proof fn law_accepted_offer_is_sent_from_the_offset(
    t: Transit,
    xfer_id: Seq<char>,
    named: Seq<char>,
    offset: u64,
    other: Seq<char>,
)
    requires
        t.outgoing.dom().contains(xfer_id),
    ensures
        ({
            let (after, step) = after_reply(
                t,
                xfer_id,
                Ok(control::FrameRow::FileAccept { xfer_id: named, offset }),
            );
            &&& step matches ReplyRow::SendFile { path, size, offset: from } && path
                == t.outgoing[xfer_id].path && size == t.outgoing[xfer_id].size && from == offset
            &&& !after.outgoing.dom().contains(xfer_id)
            &&& other != xfer_id && t.outgoing.dom().contains(other) ==> after.outgoing.dom().contains(
                other,
            ) && after.outgoing[other] == t.outgoing[other]
            &&& after.pending == t.pending
            &&& after.incoming == t.incoming
        }),
{
}

/// Where an own offer is not accepted, that is reported under its id, and a file is
/// never sent: a refusal, silence and an answer that is none are told apart.
pub proof fn law_offer_that_is_not_accepted_is_reported(
    t: Transit,
    xfer_id: Seq<char>,
    named: Seq<char>,
    fault: FrameError,
    odd: control::FrameRow,
)
    requires
        !(odd is FileAccept),
        !(odd is FileReject),
    ensures
        ({
            let refused = after_reply(
                t,
                xfer_id,
                Ok(control::FrameRow::FileReject { xfer_id: named }),
            ).1;
            let silent = after_reply(t, xfer_id, Err(fault)).1;
            let other = after_reply(t, xfer_id, Ok(odd)).1;
            &&& refused matches ReplyRow::Report(EventRow::FileFailed { xfer_id: i, .. }) && i
                == xfer_id
            &&& silent matches ReplyRow::Report(EventRow::FileFailed { xfer_id: i, .. }) && i
                == xfer_id
            &&& other matches ReplyRow::Report(EventRow::FileFailed { xfer_id: i, .. }) && i
                == xfer_id
            &&& refused != silent && refused != other && silent != other
        }),
{
    reveal_strlit("对端已拒绝");
    reveal_strlit("对端无响应");
    reveal_strlit("未收到有效的 Accept/Reject 回复");
    assert("对端已拒绝"@[2] != "对端无响应"@[2]);
    assert("对端已拒绝"@[0] != "未收到有效的 Accept/Reject 回复"@[0]);
    assert("对端无响应"@[0] != "未收到有效的 Accept/Reject 回复"@[0]);
}

/// From the offer to the bytes: what one end offers under a plain name reaches the
/// other end as it was offered, and if that end accepts it with a part file of
/// some length, the offering end sends the very file from there on, over a
/// connection whose first frame the accepting end takes, for the file under the
/// offered name, with the offered size and digest, into the chosen directory.
/// Afterwards neither end waits for anything under that id.
pub proof fn law_accepted_file_arrives_from_the_offset(
    sender: Transit,
    receiver: Transit,
    sender_fp: Seq<char>,
    conn: u64,
    xfer_id: Seq<char>,
    path: Seq<char>,
    name: Seq<char>,
    size: u64,
    blake3: Seq<char>,
    dir: Seq<char>,
    part_len: u64,
)
    requires
        filexfer::is_plain_name(name),
    ensures
        ({
            let offering = after_offer(sender, xfer_id, path, size);
            let offer = offer_frame(xfer_id, Some(name), size, blake3);
            let asked = after_frame(receiver, conn, sender_fp, Ok(offer)).0;
            let (waiting, answer) = after_decision(asked, xfer_id, true, dir, part_len);
            let (sent, step) = after_reply(offering, xfer_id, Ok(answer->0.frame));
            let start = data_start(xfer_id, step->offset);
            let (done, place) = after_file_start(waiting, xfer_id, step->offset, sender_fp);
            &&& answer is Some && answer->0.conn == conn && answer->0.event is None
            &&& step matches ReplyRow::SendFile { path: p, size: z, offset } && p == path && z
                == size && offset == part_len
            &&& route_of(Ok(start), Some(sender_fp)) == (RouteRow::FileData {
                xfer_id,
                offset: part_len,
                peer_fp: sender_fp,
            })
            &&& place matches Ok(s) && s.xfer_id == xfer_id && s.peer_fp == sender_fp
                && s.download_dir == dir && s.name == name && s.size == size && s.blake3 == blake3
                && s.offset == part_len
            &&& !sent.outgoing.dom().contains(xfer_id)
            &&& !done.pending.dom().contains(xfer_id)
            &&& !done.incoming.dom().contains(xfer_id)
        }),
{
}

/// From the offer to the refusal: what one end offers and the other does not accept,
/// or accepts though the name is no plain one, the offering end reports as failed,
/// and the other end takes no bytes for it from anybody. A name that cannot be used
/// is reported on that end as well.
pub proof fn law_refused_file_is_reported(
    sender: Transit,
    receiver: Transit,
    sender_fp: Seq<char>,
    conn: u64,
    xfer_id: Seq<char>,
    path: Seq<char>,
    name: Seq<char>,
    size: u64,
    blake3: Seq<char>,
    accept: bool,
    dir: Seq<char>,
    part_len: u64,
    offset: u64,
    from: Seq<char>,
)
    requires
        !accept || !filexfer::is_plain_name(name),
        !receiver.incoming.dom().contains(xfer_id),
    ensures
        ({
            let offering = after_offer(sender, xfer_id, path, size);
            let offer = offer_frame(xfer_id, Some(name), size, blake3);
            let asked = after_frame(receiver, conn, sender_fp, Ok(offer)).0;
            let (after, answer) = after_decision(asked, xfer_id, accept, dir, part_len);
            let step = after_reply(offering, xfer_id, Ok(answer->0.frame)).1;
            &&& answer is Some && answer->0.conn == conn
            &&& answer->0.event is Some <==> accept
            &&& answer->0.event matches Some(e) ==> e matches EventRow::FileFailed { xfer_id: i, .. }
                && i == xfer_id
            &&& step matches ReplyRow::Report(EventRow::FileFailed { xfer_id: i, .. }) && i
                == xfer_id
            &&& after_file_start(after, xfer_id, offset, from).1 is Err
            &&& !after.pending.dom().contains(xfer_id)
        }),
{
}

/// The bytes of a file are taken exactly if the file is awaited, they come from the
/// peer that offered it, and they begin where it was agreed; the three reasons to
/// refuse them are told apart.
pub proof fn law_bytes_are_taken_as_agreed(
    t: Transit,
    xfer_id: Seq<char>,
    offset: u64,
    peer_fp: Seq<char>,
)
    ensures
        after_file_start(t, xfer_id, offset, peer_fp).1 is Ok <==> t.incoming.dom().contains(xfer_id)
            && t.incoming[xfer_id].peer_fp == peer_fp && t.incoming[xfer_id].offset == offset,
        after_file_start(t, xfer_id, offset, peer_fp).0.pending == t.pending,
        after_file_start(t, xfer_id, offset, peer_fp).0.outgoing == t.outgoing,
        forall|u: Transit, v: Transit|
            #![trigger after_file_start(u, xfer_id, offset, peer_fp), after_file_start(v, xfer_id, offset, peer_fp)]
            !u.incoming.dom().contains(xfer_id) && v.incoming.dom().contains(xfer_id)
                && after_file_start(v, xfer_id, offset, peer_fp).1 is Err ==> after_file_start(
                u,
                xfer_id,
                offset,
                peer_fp,
            ).1 != after_file_start(v, xfer_id, offset, peer_fp).1,
        forall|u: Transit, v: Transit|
            #![trigger after_file_start(u, xfer_id, offset, peer_fp), after_file_start(v, xfer_id, offset, peer_fp)]
            u.incoming.dom().contains(xfer_id) && u.incoming[xfer_id].peer_fp != peer_fp
                && v.incoming.dom().contains(xfer_id) && v.incoming[xfer_id].peer_fp == peer_fp
                && v.incoming[xfer_id].offset != offset ==> after_file_start(
                u,
                xfer_id,
                offset,
                peer_fp,
            ).1 != after_file_start(v, xfer_id, offset, peer_fp).1,
{
    reveal_strlit("未知或已处理的传输");
    reveal_strlit("数据连接对端指纹与报价方不符");
    reveal_strlit("续传位置不一致");
    assert("未知或已处理的传输"@[0] != "数据连接对端指纹与报价方不符"@[0]);
    assert("未知或已处理的传输"@[0] != "续传位置不一致"@[0]);
    assert("续传位置不一致"@[0] != "数据连接对端指纹与报价方不符"@[0]);
}

/// A decision on one offer leaves all others, and all that is awaited under other
/// ids, as they are; a decision on an offer that is not open changes nothing.
pub proof fn law_decision_touches_one_offer(
    t: Transit,
    xfer_id: Seq<char>,
    accept: bool,
    dir: Seq<char>,
    part_len: u64,
    other: Seq<char>,
)
    requires
        other != xfer_id,
    ensures
        ({
            let (after, answer) = after_decision(t, xfer_id, accept, dir, part_len);
            &&& answer is None <==> !t.pending.dom().contains(xfer_id)
            &&& answer is None ==> after == t
            &&& after.pending.dom().contains(other) == t.pending.dom().contains(other)
            &&& t.pending.dom().contains(other) ==> after.pending[other] == t.pending[other]
            &&& after.incoming.dom().contains(other) == t.incoming.dom().contains(other)
            &&& t.incoming.dom().contains(other) ==> after.incoming[other] == t.incoming[other]
            &&& after.outgoing == t.outgoing
        }),
{
}

/// Of the addresses in scope the near ones are called first, each part in the order
/// in which the addresses were given, and each address as often as it was given. A
/// scope that does not restrict leaves none out.
pub proof fn law_near_addresses_are_called_first(
    entries: Seq<ScopeEntry>,
    rows: Seq<net_ifaces::IfaceRow>,
    addrs: Seq<IpAddr>,
)
    ensures
        net_ifaces::puts_near_first(
            call_order(entries, Some(rows), addrs),
            call_order(entries, None, addrs),
            rows,
        ),
        entries.len() == 0 ==> call_order(entries, None, addrs) == addrs,
{
    net_ifaces::law_near_first(reach::in_scope(entries, addrs), rows);
    if entries.len() == 0 {
        seqs::lemma_filter_all(addrs, |a: IpAddr| net_scope::ip_allowed(entries, a));
    }
}

/// Progress is reported at the end, at the first chance, and whenever the last report
/// is at least a hundred and fifty milliseconds ago; at no other time.
pub proof fn law_progress_is_reported(last: Option<Instant>, done: u64, total: u64, now: Instant)
    ensures
        report_due(last, done, total, now) <==> done == total || last is None || now.nanos
            - last->0.nanos >= 150_000_000,
{
}

/// Progress in between is reported no sooner than the throttle allows, and the
/// end of a file is always reported.
pub proof fn law_progress_is_throttled(last: Instant, done: u64, total: u64, now: Instant)
    ensures
        report_due(Some(last), total, total, now),
        report_due(Some(last), done, total, now) && done != total ==> now.nanos - last.nanos
            >= 150 * MILLISECOND,
{
}

} // verus!
