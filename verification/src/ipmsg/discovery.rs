//! Presence and messages: which packets are sent, and what a received packet
//! means. Sockets are the caller's; a service says what to send and is told
//! what arrived.

use crate::addr;
use crate::addr::{Ipv4Addr, SocketAddr};
use crate::ipmsg::command;
use crate::ipmsg::command::{
    build, Command, ANSENTRY, BR_ENTRY, BR_EXIT, FILEATTACHOPT, GETDIRFILES, RECVMSG, SENDCHECKOPT,
    SENDMSG,
};
use crate::ipmsg::filexfer;
use crate::ipmsg::filexfer::{
    build_file_offer_extra, new_offered_files, parse_file_attach_extra, request_packet,
    serve_getfiledata_request, IpmsgFileEntry, OfferedFiles, FILE_REGULAR,
};
use crate::ipmsg::proto;
use crate::ipmsg::proto::{decode, Packet, PacketRow, BIGPAW_TAG};
use crate::moment::Instant;
use crate::numeral;
use crate::numeral::{decimal_of, push_numeral, read_number};
use crate::split;
use crate::text;
use crate::text::{contains_str, owned, starts_with};
use std::collections::HashMap;
use vstd::prelude::*;
use vstd::string::StringExecFns;

verus! {

broadcast use vstd::std_specs::hash::group_hash_axioms;

/// The version that our packets carry.
pub const IPMSG_VERSION: &'static str = "1";

/// The number of the only file in an offer.
pub const SINGLE_FILE_ID: u32 = 0;

/// The nanoseconds between two announcements of our presence.
pub const ENTRY_INTERVAL: u64 = 30_000_000_000;

/// What a received packet tells.
#[derive(Debug, Clone, PartialEq, Eq)]
pub enum IpmsgEvent {
    /// A peer is there. Its key is its address and host name.
    Online {
        key: String,
        nick: String,
        host: String,
        addr: SocketAddr,
        is_bigpaw: bool,
        group: Option<String>,
    },
    /// A peer has left.
    Offline { key: String },
    /// A message has come.
    TextReceived { key: String, from: String, body: String },
    /// Files are offered; the packet number is needed to fetch them.
    FileOffered { key: String, from: String, packet_no: u32, files: Vec<IpmsgFileEntry> },
}

/// What can go wrong.
#[derive(Debug, Clone, PartialEq, Eq)]
pub enum IpmsgError {
    /// Reading or writing failed.
    Io(String),
    /// Another program holds the port.
    PortInUse,
    /// The name cannot be used for a file.
    BadName,
    /// Directories can be received, not sent.
    FolderSendUnsupported,
}

/// What to do about a received packet.
#[derive(Debug, Clone, PartialEq, Eq)]
pub enum Action {
    /// Nothing.
    Ignore,
    /// Report.
    Emit(IpmsgEvent),
    /// Answer, and report.
    ReplyAndEmit(Packet, IpmsgEvent),
    /// The packet with this number has arrived at its receiver.
    Ack(u32),
}

// ---------------------------------------------------------------------------
// Model
// ---------------------------------------------------------------------------

/// An event by the values that it holds.
#[verifier::ext_equal]
pub enum IpmsgEventRow {
    Online {
        key: Seq<char>,
        nick: Seq<char>,
        host: Seq<char>,
        addr: SocketAddr,
        is_bigpaw: bool,
        group: Option<Seq<char>>,
    },
    Offline { key: Seq<char> },
    TextReceived { key: Seq<char>, from: Seq<char>, body: Seq<char> },
    FileOffered { key: Seq<char>, from: Seq<char>, packet_no: u32, files: Seq<filexfer::FileRow> },
}

impl View for IpmsgEvent {
    type V = IpmsgEventRow;

    open spec fn view(&self) -> IpmsgEventRow {
        match self {
            IpmsgEvent::Online { key, nick, host, addr, is_bigpaw, group } => IpmsgEventRow::Online {
                key: key@,
                nick: nick@,
                host: host@,
                addr: *addr,
                is_bigpaw: *is_bigpaw,
                group: text::opt_text(*group),
            },
            IpmsgEvent::Offline { key } => IpmsgEventRow::Offline { key: key@ },
            IpmsgEvent::TextReceived { key, from, body } => IpmsgEventRow::TextReceived {
                key: key@,
                from: from@,
                body: body@,
            },
            IpmsgEvent::FileOffered { key, from, packet_no, files } => IpmsgEventRow::FileOffered {
                key: key@,
                from: from@,
                packet_no: *packet_no,
                files: filexfer::file_rows(files@),
            },
        }
    }
}

/// An action by the values that it holds.
#[verifier::ext_equal]
pub enum ActionRow {
    Ignore,
    Emit(IpmsgEventRow),
    ReplyAndEmit(PacketRow, IpmsgEventRow),
    Ack(u32),
}

impl View for Action {
    type V = ActionRow;

    open spec fn view(&self) -> ActionRow {
        match self {
            Action::Ignore => ActionRow::Ignore,
            Action::Emit(ev) => ActionRow::Emit(ev@),
            Action::ReplyAndEmit(p, ev) => ActionRow::ReplyAndEmit(p@, ev@),
            Action::Ack(n) => ActionRow::Ack(*n),
        }
    }
}

/// The extra field of an announcement: the nickname, the group if there is
/// one, and the tag with the token of this run.
pub open spec fn entry_extra_text(
    nick: Seq<char>,
    group: Option<Seq<char>>,
    token: Seq<char>,
) -> Seq<char> {
    match group {
        Some(g) => nick + seq!['\u{0}'] + (g + BIGPAW_TAG@ + token),
        None => nick + BIGPAW_TAG@ + token,
    }
}

/// The group in the extra field of an announcement: what stands between the
/// first zero and the next, unless it is empty or the tag.
pub open spec fn peer_group_of(extra: Seq<char>) -> Option<Seq<char>> {
    let parts = split::split_at_char(extra, '\u{0}');
    if parts.len() > 1 && parts[1].len() > 0 && !text::has_prefix(parts[1], "BIGPAW"@) {
        Some(parts[1])
    } else {
        None
    }
}

/// The number that follows a packet number; after the highest comes zero.
pub open spec fn number_after(n: u32) -> u32 {
    if n == u32::MAX {
        0
    } else {
        (n + 1) as u32
    }
}

/// A packet of ours.
pub open spec fn own_packet(
    number: u32,
    nick: Seq<char>,
    host: Seq<char>,
    command: u32,
    extra: Seq<char>,
) -> PacketRow {
    PacketRow {
        version: IPMSG_VERSION@,
        packet_no: number,
        sender: nick,
        host,
        command,
        extra,
    }
}

/// The key of a peer.
pub open spec fn peer_key(src: SocketAddr, host: Seq<char>) -> Seq<char> {
    addr::ipv4_text(src.ip.bits as nat) + seq![':'] + host
}

/// The report of a peer's presence.
pub open spec fn online_row(p: PacketRow, src: SocketAddr) -> IpmsgEventRow {
    IpmsgEventRow::Online {
        key: peer_key(src, p.host),
        nick: p.sender,
        host: p.host,
        addr: src,
        is_bigpaw: text::contains_text(p.extra, BIGPAW_TAG@),
        group: peer_group_of(p.extra),
    }
}

/// The report of a message, with or without files.
pub open spec fn message_row(p: PacketRow, src: SocketAddr) -> IpmsgEventRow {
    if command::command_has(p.command, FILEATTACHOPT) {
        IpmsgEventRow::FileOffered {
            key: peer_key(src, p.host),
            from: p.sender,
            packet_no: p.packet_no,
            files: filexfer::attachment_of(p.extra).1,
        }
    } else {
        IpmsgEventRow::TextReceived { key: peer_key(src, p.host), from: p.sender, body: p.extra }
    }
}

/// What to do about a received packet, if our next packet has the given number.
pub open spec fn action_for(
    p: PacketRow,
    src: SocketAddr,
    nick: Seq<char>,
    group: Option<Seq<char>>,
    host: Seq<char>,
    number: u32,
    token: Seq<char>,
) -> ActionRow {
    let num = command::command_num(p.command);
    if text::contains_text(p.extra, token) {
        ActionRow::Ignore
    } else if num == BR_ENTRY {
        ActionRow::ReplyAndEmit(
            own_packet(number, nick, host, ANSENTRY, entry_extra_text(nick, group, token)),
            online_row(p, src),
        )
    } else if num == ANSENTRY {
        ActionRow::Emit(online_row(p, src))
    } else if num == BR_EXIT {
        ActionRow::Emit(IpmsgEventRow::Offline { key: peer_key(src, p.host) })
    } else if num == SENDMSG {
        if command::command_has(p.command, SENDCHECKOPT) {
            ActionRow::ReplyAndEmit(
                own_packet(number, nick, host, RECVMSG, numeral::decimal(p.packet_no as nat)),
                message_row(p, src),
            )
        } else {
            ActionRow::Emit(message_row(p, src))
        }
    } else if num == RECVMSG {
        match numeral::parse_number(p.extra, 10, u32::MAX as nat) {
            Some(n) => ActionRow::Ack(n as u32),
            None => ActionRow::Ignore,
        }
    } else {
        ActionRow::Ignore
    }
}

/// A borrowed optional text by its characters.
pub open spec fn opt_str(o: Option<&str>) -> Option<Seq<char>> {
    match o {
        Some(s) => Some(s@),
        None => None,
    }
}

// ---------------------------------------------------------------------------
// Packets
// ---------------------------------------------------------------------------

impl IpmsgError {
    /// The message for the user.
    pub open spec fn message(self) -> Seq<char> {
        match self {
            IpmsgError::Io(e) => "io: "@ + e@,
            IpmsgError::PortInUse => "port already in use"@,
            IpmsgError::BadName => "非法文件名(可能路径穿越)"@,
            IpmsgError::FolderSendUnsupported => "不支持发送文件夹(仅支持接收)"@,
        }
    }

    /// The message for the user.
    pub fn to_text(&self) -> (s: String)
        ensures
            s@ == self.message(),
    {
        match self {
            IpmsgError::Io(e) => {
                let mut s: String = owned("io: ");
                s.append(e);
                s
            },
            IpmsgError::PortInUse => owned("port already in use"),
            IpmsgError::BadName => owned("非法文件名(可能路径穿越)"),
            IpmsgError::FolderSendUnsupported => owned("不支持发送文件夹(仅支持接收)"),
        }
    }
}

/// The extra field of an announcement.
pub fn entry_extra(nick: &str, group: Option<&str>, self_token: &str) -> (r: String)
    ensures
        r@ == entry_extra_text(nick@, opt_str(group), self_token@),
{
    let mut s: String = owned(nick);
    if let Some(g) = group {
        s.push('\u{0}');
        s.append(g);
    }
    s.append(BIGPAW_TAG);
    s.append(self_token);
    assert(s@ =~= entry_extra_text(nick@, opt_str(group), self_token@));
    s
}

/// The group in the extra field of an announcement.
pub fn parse_peer_group(extra: &str) -> (r: Option<String>)
    ensures
        text::opt_text(r) == peer_group_of(extra@),
{
    let parts: Vec<String> = split::split(extra, '\u{0}');
    let ghost fields = split::split_at_char(extra@, '\u{0}');
    proof {
        assert(parts@.len() == fields.len());
        assert(forall|i: int| 0 <= i < fields.len() ==> fields[i] == (#[trigger] parts@[i])@);
    }
    if parts.len() > 1 && !parts[1].as_str().is_empty() && !starts_with(&parts[1], "BIGPAW") {
        Some(parts[1].clone())
    } else {
        None
    }
}

/// Takes the next packet number.
pub fn next_packet_no(counter: &mut u32) -> (r: u32)
    ensures
        r == *old(counter),
        *final(counter) == number_after(*old(counter)),
{
    let n: u32 = *counter;
    *counter = if n == u32::MAX {
        0
    } else {
        n + 1
    };
    n
}

/// A packet of ours.
fn make_packet(number: u32, nick: &str, host: &str, command: u32, extra: String) -> (r: Packet)
    ensures
        r@ == own_packet(number, nick@, host@, command, extra@),
{
    Packet {
        version: owned(IPMSG_VERSION),
        packet_no: number,
        sender: owned(nick),
        host: owned(host),
        command,
        extra,
    }
}

/// The token for a start at the given nanosecond.
pub fn self_token_at(nanos: u128) -> (r: String)
    ensures
        r@ == numeral::hexadecimal(nanos as nat),
{
    let mut s: String = String::new();
    push_numeral(&mut s, nanos, 16);
    assert(s@ =~= numeral::hexadecimal(nanos as nat));
    s
}

/// A token for this run of the program: the current time in hexadecimal. Our
/// own packets carry it, so that they are known when they come back.
pub fn new_self_token() -> (r: String)
    ensures
        exists|n: u128| r@ == #[trigger] numeral::hexadecimal(n as nat),
{
    let n: u128 = crate::moment::system_nanos();
    self_token_at(n)
}

/// The message that offers a file and asks for a receipt.
pub fn file_offer_packet(
    nick: &str,
    host: &str,
    packet_no: u32,
    file_id: u32,
    name: &str,
    size: u64,
    mtime: u64,
) -> (r: Packet)
    ensures
        r@ == own_packet(
            packet_no,
            nick@,
            host@,
            SENDMSG | FILEATTACHOPT | SENDCHECKOPT,
            seq!['\u{0}'] + filexfer::file_entry_text(file_id, name@, size, mtime, FILE_REGULAR),
        ),
{
    let extra: String = build_file_offer_extra("", file_id, name, size, mtime, FILE_REGULAR);
    let opts: [u32; 2] = [FILEATTACHOPT, SENDCHECKOPT];
    let word: u32 = build(SENDMSG, &opts);
    proof {
        reveal_strlit("");
        assert(extra@ =~= seq!['\u{0}'] + filexfer::file_entry_text(
            file_id,
            name@,
            size,
            mtime,
            FILE_REGULAR,
        ));
        reveal_with_fuel(command::with_options, 3);
        assert(opts@ =~= seq![FILEATTACHOPT, SENDCHECKOPT]);
        assert(opts@.drop_last() =~= seq![FILEATTACHOPT]);
        assert(opts@.drop_last().drop_last() =~= Seq::<u32>::empty());
    }
    make_packet(packet_no, nick, host, word, extra)
}

/// Every address, reached by one broadcast: where announcements go if the
/// interfaces are not looked at.
pub fn default_broadcast_targets() -> (r: Vec<Ipv4Addr>)
    ensures
        r@ == seq![Ipv4Addr { bits: 0xFFFF_FFFF }],
{
    let mut v: Vec<Ipv4Addr> = Vec::new();
    v.push(Ipv4Addr { bits: 0xFFFF_FFFF });
    v
}

/// Where a broadcast packet is sent: once to each of the broadcast addresses.
/// Without one, nothing is sent.
pub fn broadcast(targets: &[Ipv4Addr], port: u16) -> (r: Vec<SocketAddr>)
    ensures
        r@ == targets@.map_values(|ip: Ipv4Addr| SocketAddr { ip, port }),
{
    let mut v: Vec<SocketAddr> = Vec::new();
    let mut i: usize = 0;
    while i < targets.len()
        invariant
            i <= targets.len(),
            v@.len() == i,
            forall|k: int|
                0 <= k < i ==> (#[trigger] v@[k]) == (SocketAddr { ip: targets@[k], port }),
        decreases targets.len() - i,
    {
        v.push(SocketAddr { ip: targets[i], port });
        i = i + 1;
    }
    assert(v@ =~= targets@.map_values(|ip: Ipv4Addr| SocketAddr { ip, port }));
    v
}

/// What to do about a received packet.
pub fn dispatch(
    packet: &Packet,
    src: SocketAddr,
    nick: &str,
    group: Option<&str>,
    host: &str,
    packet_no: &mut u32,
    self_token: &str,
) -> (r: Action)
    ensures
        r@ == action_for(
            packet@,
            src,
            nick@,
            opt_str(group),
            host@,
            *old(packet_no),
            self_token@,
        ),
        *final(packet_no) == (if r@ is ReplyAndEmit {
            number_after(*old(packet_no))
        } else {
            *old(packet_no)
        }),
{
    if contains_str(&packet.extra, self_token) {
        return Action::Ignore;
    }
    let mut key: String = src.ip.to_text();
    key.push(':');
    key.append(&packet.host);
    assert(key@ =~= peer_key(src, packet@.host));
    let cmd: Command = Command(packet.command);
    let num: u32 = cmd.num();
    if num == BR_ENTRY || num == ANSENTRY {
        let online: IpmsgEvent = IpmsgEvent::Online {
            key,
            nick: packet.sender.clone(),
            host: packet.host.clone(),
            addr: src,
            is_bigpaw: contains_str(&packet.extra, BIGPAW_TAG),
            group: parse_peer_group(&packet.extra),
        };
        assert(online@ == online_row(packet@, src));
        if num == ANSENTRY {
            return Action::Emit(online);
        }
        let reply: Packet = make_packet(
            next_packet_no(packet_no),
            nick,
            host,
            ANSENTRY,
            entry_extra(nick, group, self_token),
        );
        return Action::ReplyAndEmit(reply, online);
    }
    if num == BR_EXIT {
        return Action::Emit(IpmsgEvent::Offline { key });
    }
    if num == SENDMSG {
        let event: IpmsgEvent = if cmd.has_opt(FILEATTACHOPT) {
            let (_, files) = parse_file_attach_extra(&packet.extra);
            IpmsgEvent::FileOffered {
                key,
                from: packet.sender.clone(),
                packet_no: packet.packet_no,
                files,
            }
        } else {
            IpmsgEvent::TextReceived {
                key,
                from: packet.sender.clone(),
                body: packet.extra.clone(),
            }
        };
        assert(event@ == message_row(packet@, src));
        if cmd.has_opt(SENDCHECKOPT) {
            let reply: Packet = make_packet(
                next_packet_no(packet_no),
                nick,
                host,
                RECVMSG,
                decimal_of(packet.packet_no as u64),
            );
            return Action::ReplyAndEmit(reply, event);
        }
        return Action::Emit(event);
    }
    if num == RECVMSG {
        return match read_number(&packet.extra, 10, u32::MAX as u64) {
            Some(n) => Action::Ack(n as u32),
            None => Action::Ignore,
        };
    }
    Action::Ignore
}

// ---------------------------------------------------------------------------
// The service
// ---------------------------------------------------------------------------

/// Our side of the protocol.
#[derive(Debug)]
pub struct IpmsgService {
    nick: String,
    group: Option<String>,
    host: String,
    self_token: String,
    packet_no: u32,
    pending_acks: HashMap<u32, Instant>,
    offered_files: OfferedFiles,
}

/// Our side of the protocol by the values that it holds.
#[verifier::ext_equal]
pub struct ServiceRow {
    pub nick: Seq<char>,
    pub group: Option<Seq<char>>,
    pub host: Seq<char>,
    pub token: Seq<char>,
    /// The number of our next packet.
    pub number: u32,
    /// The packets whose receipt is awaited, and when they were sent.
    pub pending: Map<u32, Instant>,
    /// The files that may be fetched from us.
    pub offered: Map<(u32, u32), Seq<char>>,
}

impl View for IpmsgService {
    type V = ServiceRow;

    closed spec fn view(&self) -> ServiceRow {
        ServiceRow {
            nick: self.nick@,
            group: text::opt_text(self.group),
            host: self.host@,
            token: self.self_token@,
            number: self.packet_no,
            pending: self.pending_acks@,
            offered: self.offered_files@,
        }
    }
}

impl ServiceRow {
    /// The announcement of our presence.
    pub open spec fn entry(self) -> PacketRow {
        own_packet(
            self.number,
            self.nick,
            self.host,
            BR_ENTRY,
            entry_extra_text(self.nick, self.group, self.token),
        )
    }

    /// The message with this text, which asks for a receipt.
    pub open spec fn text_packet(self, body: Seq<char>) -> PacketRow {
        own_packet(self.number, self.nick, self.host, SENDMSG | SENDCHECKOPT, body)
    }

    /// The message that offers a file and asks for a receipt.
    pub open spec fn file_packet(self, name: Seq<char>, size: u64, mtime: u64) -> PacketRow {
        own_packet(
            self.number,
            self.nick,
            self.host,
            SENDMSG | FILEATTACHOPT | SENDCHECKOPT,
            seq!['\u{0}'] + filexfer::file_entry_text(
                SINGLE_FILE_ID,
                name,
                size,
                mtime,
                FILE_REGULAR,
            ),
        )
    }

    /// The packet that asks for a file.
    pub open spec fn file_request(self, packet_no: u32, file_id: u32) -> PacketRow {
        own_packet(
            self.number,
            self.nick,
            self.host,
            command::GETFILEDATA,
            filexfer::request_text(packet_no, file_id, 0),
        )
    }

    /// The packet that asks for a directory.
    pub open spec fn dir_request(self, packet_no: u32, file_id: u32) -> PacketRow {
        own_packet(
            self.number,
            self.nick,
            self.host,
            GETDIRFILES,
            numeral::hexadecimal(packet_no as nat) + seq![':'] + numeral::hexadecimal(
                file_id as nat,
            ),
        )
    }

    /// The announcement that we leave.
    pub open spec fn farewell(self) -> PacketRow {
        own_packet(self.number, self.nick, self.host, BR_EXIT, self.token)
    }

    /// The service after a packet that asks for a receipt has been sent.
    pub open spec fn awaiting(self, packet_no: u32, now: Instant) -> ServiceRow {
        ServiceRow { pending: self.pending.insert(packet_no, now), ..self }
    }

    /// The service after a file was offered.
    pub open spec fn offering(self, packet_no: u32, path: Seq<char>, now: Instant) -> ServiceRow {
        ServiceRow {
            offered: self.offered.insert((packet_no, SINGLE_FILE_ID), path),
            ..self.awaiting(packet_no, now)
        }
    }

    /// The service after one packet number has been used up.
    pub open spec fn counted(self) -> ServiceRow {
        ServiceRow { number: number_after(self.number), ..self }
    }

    /// The service after a packet has been received from an allowed peer.
    pub open spec fn after(self, a: ActionRow) -> ServiceRow {
        match a {
            ActionRow::ReplyAndEmit(_, _) => self.counted(),
            ActionRow::Ack(n) => ServiceRow { pending: self.pending.remove(n), ..self },
            _ => self,
        }
    }

    /// What to do about a received packet.
    pub open spec fn action(self, p: PacketRow, src: SocketAddr) -> ActionRow {
        action_for(p, src, self.nick, self.group, self.host, self.number, self.token)
    }

    /// What to do about received bytes.
    pub open spec fn action_on(self, bytes: Seq<u8>, src: SocketAddr, allowed: bool) -> ActionRow {
        match proto::packet_of_bytes(bytes) {
            Some(p) => if allowed {
                self.action(p, src)
            } else {
                ActionRow::Ignore
            },
            None => ActionRow::Ignore,
        }
    }
}

/// A borrowed optional string as a slice.
fn group_str(g: &Option<String>) -> (r: Option<&str>)
    ensures
        opt_str(r) == text::opt_text(*g),
{
    match g {
        Some(s) => Some(s.as_str()),
        None => None,
    }
}

/// An owned copy of an optional slice.
fn group_owned(g: Option<&str>) -> (r: Option<String>)
    ensures
        text::opt_text(r) == opt_str(g),
{
    match g {
        Some(s) => Some(owned(s)),
        None => None,
    }
}

impl IpmsgService {
    /// A service that has sent nothing yet.
    pub fn start(nick: &str, group: Option<&str>, host: &str, self_token: &str) -> (r: Self)
        ensures
            r@ == (ServiceRow {
                nick: nick@,
                group: opt_str(group),
                host: host@,
                token: self_token@,
                number: 1,
                pending: Map::empty(),
                offered: Map::empty(),
            }),
    {
        IpmsgService {
            nick: owned(nick),
            group: group_owned(group),
            host: owned(host),
            self_token: owned(self_token),
            packet_no: 1,
            pending_acks: HashMap::new(),
            offered_files: new_offered_files(),
        }
    }

    /// The announcement of our presence, sent at the start and then every
    /// `ENTRY_INTERVAL`.
    pub fn entry(&mut self) -> (r: Packet)
        ensures
            r@ == old(self)@.entry(),
            final(self)@ == old(self)@.counted(),
    {
        let number: u32 = next_packet_no(&mut self.packet_no);
        let extra: String = entry_extra(&self.nick, group_str(&self.group), &self.self_token);
        make_packet(number, &self.nick, &self.host, BR_ENTRY, extra)
    }

    /// Changes the nickname; the announcement of it is to be sent at once.
    pub fn set_nick(&mut self, nick: &str) -> (r: Packet)
        ensures
            r@ == (ServiceRow { nick: nick@, ..old(self)@ }).entry(),
            final(self)@ == (ServiceRow { nick: nick@, ..old(self)@ }).counted(),
    {
        self.nick = owned(nick);
        self.entry()
    }

    /// Changes the group; the announcement of it is to be sent at once.
    pub fn set_group(&mut self, group: Option<&str>) -> (r: Packet)
        ensures
            r@ == (ServiceRow { group: opt_str(group), ..old(self)@ }).entry(),
            final(self)@ == (ServiceRow { group: opt_str(group), ..old(self)@ }).counted(),
    {
        self.group = group_owned(group);
        self.entry()
    }

    /// The message with this text, which asks for a receipt.
    pub fn send_text(&mut self, body: &str) -> (r: Packet)
        ensures
            r@ == old(self)@.text_packet(body@),
            final(self)@ == old(self)@.counted(),
    {
        let number: u32 = next_packet_no(&mut self.packet_no);
        let opts: [u32; 1] = [SENDCHECKOPT];
        let word: u32 = build(SENDMSG, &opts);
        proof {
            reveal_with_fuel(command::with_options, 2);
            assert(opts@ =~= seq![SENDCHECKOPT]);
            assert(opts@.drop_last() =~= Seq::<u32>::empty());
        }
        make_packet(number, &self.nick, &self.host, word, owned(body))
    }

    /// Notes that a packet that asks for a receipt has been sent.
    pub fn note_sent(&mut self, packet_no: u32, now: Instant)
        ensures
            final(self)@ == old(self)@.awaiting(packet_no, now),
    {
        let _ = self.pending_acks.insert(packet_no, now);
    }

    /// The message that offers a file. Directories cannot be sent, and the file
    /// must have a name that is text.
    pub fn send_file(&mut self, is_dir: bool, name: Option<&str>, size: u64, mtime: u64) -> (r:
        Result<Packet, IpmsgError>)
        ensures
            if is_dir {
                r == Err::<Packet, IpmsgError>(IpmsgError::FolderSendUnsupported) && final(self)@
                    == old(self)@
            } else {
                match opt_str(name) {
                    None => r == Err::<Packet, IpmsgError>(IpmsgError::BadName) && final(self)@
                        == old(self)@,
                    Some(n) => {
                        &&& r is Ok
                        &&& r->Ok_0@ == old(self)@.file_packet(n, size, mtime)
                        &&& final(self)@ == old(self)@.counted()
                    },
                }
            },
    {
        if is_dir {
            return Err(IpmsgError::FolderSendUnsupported);
        }
        match name {
            None => Err(IpmsgError::BadName),
            Some(n) => {
                let number: u32 = next_packet_no(&mut self.packet_no);
                Ok(file_offer_packet(&self.nick, &self.host, number, SINGLE_FILE_ID, n, size, mtime))
            },
        }
    }

    /// Notes that an offer has been sent: from now on the file may be fetched.
    pub fn note_offered(&mut self, packet_no: u32, path: String, now: Instant)
        ensures
            final(self)@ == old(self)@.offering(packet_no, path@, now),
    {
        self.offered_files.register(packet_no, SINGLE_FILE_ID, path);
        self.note_sent(packet_no, now);
    }

    /// The packet that asks for a file.
    pub fn request_file(&mut self, packet_no: u32, file_id: u32) -> (r: Packet)
        ensures
            r@ == old(self)@.file_request(packet_no, file_id),
            final(self)@ == old(self)@.counted(),
    {
        let number: u32 = next_packet_no(&mut self.packet_no);
        request_packet(IPMSG_VERSION, number, &self.nick, &self.host, packet_no, file_id)
    }

    /// The packet that asks for a directory.
    pub fn request_dir(&mut self, packet_no: u32, file_id: u32) -> (r: Packet)
        ensures
            r@ == old(self)@.dir_request(packet_no, file_id),
            final(self)@ == old(self)@.counted(),
    {
        let number: u32 = next_packet_no(&mut self.packet_no);
        let mut extra: String = String::new();
        push_numeral(&mut extra, packet_no as u128, 16);
        extra.push(':');
        push_numeral(&mut extra, file_id as u128, 16);
        assert(extra@ =~= numeral::hexadecimal(packet_no as nat) + seq![':']
            + numeral::hexadecimal(file_id as nat));
        make_packet(number, &self.nick, &self.host, GETDIRFILES, extra)
    }

    /// Takes in a packet from an allowed peer.
    pub fn receive_packet(&mut self, packet: &Packet, src: SocketAddr) -> (r: Action)
        ensures
            r@ == old(self)@.action(packet@, src),
            final(self)@ == old(self)@.after(r@),
    {
        let action: Action = dispatch(
            packet,
            src,
            &self.nick,
            group_str(&self.group),
            &self.host,
            &mut self.packet_no,
            &self.self_token,
        );
        if let Action::Ack(n) = &action {
            let _ = self.pending_acks.remove(n);
        }
        action
    }

    /// Takes in a datagram. What is no packet, and whatever comes from a peer
    /// that is not allowed, is dropped without a trace. The text of another
    /// service, sent as bytes, is reported as it was given, with the nickname of
    /// that service.
    pub fn receive(&mut self, bytes: &[u8], src: SocketAddr, allowed: bool) -> (r: Action)
        ensures
            r@ == old(self)@.action_on(bytes@, src, allowed),
            final(self)@ == old(self)@.after(r@),
            forall|sender: ServiceRow, body: Seq<char>|
                #![trigger sender.text_packet(body)]
                allowed && proto::is_sendable(sender.text_packet(body)) && bytes@
                    == proto::packet_bytes(sender.text_packet(body)) && !text::contains_text(
                    body,
                    old(self)@.token,
                ) ==> (r@ matches ActionRow::ReplyAndEmit(
                    _,
                    IpmsgEventRow::TextReceived { from, body: read, .. },
                ) && from == sender.nick && read == body),
    {
        let packet = decode(bytes);
        proof {
            assert forall|sender: ServiceRow, body: Seq<char>|
                #![trigger sender.text_packet(body)]
                allowed && proto::is_sendable(sender.text_packet(body)) && bytes@
                    == proto::packet_bytes(sender.text_packet(body)) && !text::contains_text(
                    body,
                    self@.token,
                ) implies (self@.action_on(bytes@, src, allowed) matches ActionRow::ReplyAndEmit(
                _,
                IpmsgEventRow::TextReceived { from, body: read, .. },
            ) && from == sender.nick && read == body) by {
                law_text_arrives(sender, self@, src, body);
            }
        }
        match packet {
            None => Action::Ignore,
            Some(packet) => if allowed {
                self.receive_packet(&packet, src)
            } else {
                Action::Ignore
            },
        }
    }

    /// Which file to send on a connection on which these bytes have come.
    pub fn serve(&self, bytes: &[u8]) -> (r: Option<(String, u64)>)
        ensures
            filexfer::answer_row(r) == match proto::packet_of_bytes(bytes@) {
                Some(p) => filexfer::answer_to(p, self@.offered),
                None => None,
            },
    {
        serve_getfiledata_request(bytes, &self.offered_files)
    }

    /// The announcement that we leave.
    pub fn shutdown(&mut self) -> (r: Packet)
        ensures
            r@ == old(self)@.farewell(),
            final(self)@ == old(self)@.counted(),
    {
        let number: u32 = next_packet_no(&mut self.packet_no);
        make_packet(number, &self.nick, &self.host, BR_EXIT, self.self_token.clone())
    }
}

// ---------------------------------------------------------------------------
// Laws
// ---------------------------------------------------------------------------

/// The token and the tag stand in every announcement of ours.
pub proof fn law_entry_carries_token_and_tag(
    nick: Seq<char>,
    group: Option<Seq<char>>,
    token: Seq<char>,
)
    ensures
        text::contains_text(entry_extra_text(nick, group, token), token),
        text::contains_text(entry_extra_text(nick, group, token), BIGPAW_TAG@),
        text::has_prefix(entry_extra_text(nick, group, token), nick),
{
    let e = entry_extra_text(nick, group, token);
    let at = e.len() - token.len();
    assert(e.subrange(at, e.len() as int) =~= token);
    assert(text::occurs_at(e, token, at));
    let tag_at = at - BIGPAW_TAG@.len();
    assert(e.subrange(tag_at, at as int) =~= BIGPAW_TAG@);
    assert(text::occurs_at(e, BIGPAW_TAG@, tag_at));
    assert(e.take(nick.len() as int) =~= nick);
}

/// Our own announcements are ignored when they come back to us, and so is our
/// farewell.
pub proof fn law_own_packets_are_ignored(s: ServiceRow, src: SocketAddr, number: u32)
    ensures
        s.action((ServiceRow { number, ..s }).entry(), src) == ActionRow::Ignore,
        s.action((ServiceRow { number, ..s }).farewell(), src) == ActionRow::Ignore,
{
    law_entry_carries_token_and_tag(s.nick, s.group, s.token);
    assert(s.token.subrange(0, s.token.len() as int) =~= s.token);
    assert(text::occurs_at(s.token, s.token, 0));
}

/// A peer reads our group from our announcement, if neither it nor the
/// nickname holds a zero and it does not look like the tag; without a group it
/// reads none.
pub proof fn law_group_is_read_back(nick: Seq<char>, group: Option<Seq<char>>, token: Seq<char>)
    requires
        !nick.contains('\u{0}'),
        match group {
            Some(g) => g.len() > 0 && !g.contains('\u{0}') && !text::has_prefix(g, "BIGPAW"@),
            None => true,
        },
    ensures
        peer_group_of(entry_extra_text(nick, group, token)) == group,
{
    reveal_strlit("\u{0}BIGPAW");
    reveal_strlit("BIGPAW");
    let tag = BIGPAW_TAG@;
    assert(tag =~= seq!['\u{0}'] + "BIGPAW"@);
    let e = entry_extra_text(nick, group, token);
    match group {
        Some(g) => {
            let rest = "BIGPAW"@ + token;
            assert(e =~= nick + seq!['\u{0}'] + (g + seq!['\u{0}'] + rest));
            split::lemma_split_piece(nick, '\u{0}', g + seq!['\u{0}'] + rest);
            split::lemma_split_piece(g, '\u{0}', rest);
            let parts = split::split_at_char(e, '\u{0}');
            assert(parts[1] == g);
            split::lemma_split_pieces(rest, '\u{0}');
        },
        None => {
            let rest = "BIGPAW"@ + token;
            assert(e =~= nick + seq!['\u{0}'] + rest);
            split::lemma_split_piece(nick, '\u{0}', rest);
            split::lemma_split_pieces(rest, '\u{0}');
            let parts = split::split_at_char(e, '\u{0}');
            let first = split::split_at_char(rest, '\u{0}')[0];
            assert(parts[1] == first);
            split::lemma_split_first("BIGPAW"@, '\u{0}', token);
        },
    }
}

/// A message that asks for a receipt gets one with its number, and the receipt
/// is understood by the sender.
pub proof fn law_receipt_acknowledges(
    sender: ServiceRow,
    receiver: ServiceRow,
    p: PacketRow,
    from: SocketAddr,
    back: SocketAddr,
)
    requires
        command::command_num(p.command) == SENDMSG,
        command::command_has(p.command, SENDCHECKOPT),
        !text::contains_text(p.extra, receiver.token),
        !text::contains_text(numeral::decimal(p.packet_no as nat), sender.token),
    ensures
        receiver.action(p, from) is ReplyAndEmit,
        sender.action(receiver.action(p, from)->ReplyAndEmit_0, back) == ActionRow::Ack(
            p.packet_no,
        ),
{
    numeral::lemma_parse_numeral(p.packet_no as nat, 10, u32::MAX as nat);
    assert(0x21u32 & 0xff == 0x21u32) by (bit_vector);
}

/// A text, whatever it holds but the token of the receiver, arrives at any service
/// as the text that was given, from the nickname of its sender and under the key of
/// its address and host name. The receiver answers at once.
pub proof fn law_text_arrives(
    sender: ServiceRow,
    receiver: ServiceRow,
    src: SocketAddr,
    body: Seq<char>,
)
    requires
        !text::contains_text(body, receiver.token),
    ensures
        receiver.action(sender.text_packet(body), src) matches ActionRow::ReplyAndEmit(
            _,
            IpmsgEventRow::TextReceived { key, from, body: read },
        ) && read == body && from == sender.nick && key == addr::ipv4_text(src.ip.bits as nat)
            + seq![':'] + sender.host,
{
    assert((0x20u32 | 0x100u32) & 0xff == 0x20u32 && (0x20u32 | 0x100u32) & 0x100 != 0 && (0x20u32
        | 0x100u32) & 0x20_0000 == 0) by (bit_vector);
}

/// From one service to another: a text that survives being written in GBK, colons and all, is
/// sent as bytes and reported by every other service, whatever its state, as that very text
/// from the nickname of its sender, unless it holds the token of the receiver.
pub proof fn law_text_arrives_as_bytes(
    sender: ServiceRow,
    receiver: ServiceRow,
    src: SocketAddr,
    body: Seq<char>,
)
    requires
        proto::packet_of_bytes(proto::packet_bytes(sender.text_packet(body))) == Some(
            sender.text_packet(body),
        ),
        !text::contains_text(body, receiver.token),
    ensures
        receiver.action_on(proto::packet_bytes(sender.text_packet(body)), src, true) matches
            ActionRow::ReplyAndEmit(_, IpmsgEventRow::TextReceived { key, from, body: read })
            && read == body && from == sender.nick && key == addr::ipv4_text(src.ip.bits as nat)
            + seq![':'] + sender.host,
{
    law_text_arrives(sender, receiver, src, body);
}

/// Every text whose characters GBK reads back, colons and all, can be sent by a
/// service whose nickname and host name GBK reads back and hold no colon.
pub proof fn law_readable_text_can_be_sent(sender: ServiceRow, body: Seq<char>)
    requires
        !sender.nick.contains(':'),
        !sender.host.contains(':'),
        proto::all_read_back(sender.nick),
        proto::all_read_back(sender.host),
        proto::all_read_back(body),
        body.len() > 0 ==> body.last() != '\u{0}',
    ensures
        proto::is_sendable(sender.text_packet(body)),
{
    reveal_strlit("1");
    assert(IPMSG_VERSION@.len() == 1 && IPMSG_VERSION@[0] == '1');
    proto::lemma_ascii_reads_back('1');
    proto::law_readable_packet_is_sendable(sender.text_packet(body));
}

/// The receipt for a text or for an offer of a file carries the number under which
/// it was sent, and ends the waiting for that number and for no other.
pub proof fn law_receipt_ends_the_waiting(
    sender: ServiceRow,
    receiver: ServiceRow,
    src: SocketAddr,
    back: SocketAddr,
    body: Seq<char>,
    now: Instant,
    other: u32,
)
    requires
        !text::contains_text(body, receiver.token),
        !text::contains_text(numeral::decimal(sender.number as nat), sender.token),
        other != sender.number,
    ensures
        ({
            let sent = sender.counted().awaiting(sender.number, now);
            let receipt = receiver.action(sender.text_packet(body), src)->ReplyAndEmit_0;
            let after = sent.after(sent.action(receipt, back));
            &&& sent.pending.dom().contains(sender.number)
            &&& sent.pending[sender.number] == now
            &&& !after.pending.dom().contains(sender.number)
            &&& after.pending.dom().contains(other) == sender.pending.dom().contains(other)
            &&& sender.pending.dom().contains(other) ==> after.pending[other]
                == sender.pending[other]
            &&& after.offered == sender.offered
            &&& after.nick == sender.nick && after.group == sender.group && after.host
                == sender.host && after.token == sender.token
        }),
{
    assert((0x20u32 | 0x100u32) & 0xff == 0x20u32 && (0x20u32 | 0x100u32) & 0x100 != 0) by (
    bit_vector);
    let sent = sender.counted().awaiting(sender.number, now);
    law_receipt_acknowledges(sent, receiver, sender.text_packet(body), src, back);
}

/// Two services find each other: the announcement of one is reported by the other
/// with its nickname, host and address, as one of this program, and is answered, and
/// the answer is reported by the first in the same way.
pub proof fn law_services_find_each_other(
    a: ServiceRow,
    b: ServiceRow,
    at_a: SocketAddr,
    at_b: SocketAddr,
)
    requires
        !text::contains_text(entry_extra_text(a.nick, a.group, a.token), b.token),
        !text::contains_text(entry_extra_text(b.nick, b.group, b.token), a.token),
    ensures
        b.action(a.entry(), at_a) matches ActionRow::ReplyAndEmit(
            _,
            IpmsgEventRow::Online { key, nick, host, addr, is_bigpaw, group },
        ) && key == addr::ipv4_text(at_a.ip.bits as nat) + seq![':'] + a.host && nick == a.nick
            && host == a.host && addr == at_a && is_bigpaw && group == peer_group_of(
            entry_extra_text(a.nick, a.group, a.token),
        ),
        a.action(b.action(a.entry(), at_a)->ReplyAndEmit_0, at_b) matches ActionRow::Emit(
            IpmsgEventRow::Online { key, nick, host, addr, is_bigpaw, group },
        ) && key == addr::ipv4_text(at_b.ip.bits as nat) + seq![':'] + b.host && nick == b.nick
            && host == b.host && addr == at_b && is_bigpaw && group == peer_group_of(
            entry_extra_text(b.nick, b.group, b.token),
        ),
{
    law_entry_carries_token_and_tag(a.nick, a.group, a.token);
    law_entry_carries_token_and_tag(b.nick, b.group, b.token);
    assert(0x01u32 & 0xff == 0x01u32 && 0x03u32 & 0xff == 0x03u32) by (bit_vector);
}

/// A peer that leaves is reported under the key under which it was reported when it
/// came, and is not answered.
pub proof fn law_farewell_names_who_came(
    leaving: ServiceRow,
    number: u32,
    receiver: ServiceRow,
    src: SocketAddr,
)
    requires
        !text::contains_text(leaving.token, receiver.token),
        !text::contains_text(
            entry_extra_text(leaving.nick, leaving.group, leaving.token),
            receiver.token,
        ),
    ensures
        ({
            let came = receiver.action((ServiceRow { number, ..leaving }).entry(), src);
            receiver.action(leaving.farewell(), src) matches ActionRow::Emit(
                IpmsgEventRow::Offline { key },
            ) && came is ReplyAndEmit && came->ReplyAndEmit_1 is Online && key
                == came->ReplyAndEmit_1->Online_key
        }),
{
    assert(0x01u32 & 0xff == 0x01u32 && 0x02u32 & 0xff == 0x02u32) by (bit_vector);
}

/// An offered file arrives as it was offered, with its name and its size and as a
/// file, under the number of its packet; and what the receiver then asks for is the
/// file at the path that was offered, from its start.
pub proof fn law_offered_file_can_be_fetched(
    sender: ServiceRow,
    receiver: ServiceRow,
    fetching: ServiceRow,
    src: SocketAddr,
    name: Seq<char>,
    size: u64,
    mtime: u64,
    path: Seq<char>,
    now: Instant,
)
    requires
        filexfer::is_safe_name(name),
        !name.contains('\u{7}'),
        !text::contains_text(sender.file_packet(name, size, mtime).extra, receiver.token),
    ensures
        receiver.action(sender.file_packet(name, size, mtime), src) matches ActionRow::ReplyAndEmit(
            _,
            IpmsgEventRow::FileOffered { key, from, packet_no, files },
        ) && key == addr::ipv4_text(src.ip.bits as nat) + seq![':'] + sender.host && from
            == sender.nick && packet_no == sender.number && files.len() == 1 && files[0].name
            == name && files[0].size == size && !files[0].is_dir && filexfer::answer_to(
            fetching.file_request(packet_no, files[0].file_id),
            sender.counted().offering(sender.number, path, now).offered,
        ) == Some((path, 0u64)),
{
    assert((0x20u32 | 0x20_0000u32 | 0x100u32) & 0xff == 0x20u32 && (0x20u32 | 0x20_0000u32
        | 0x100u32) & 0x100 != 0 && (0x20u32 | 0x20_0000u32 | 0x100u32) & 0x20_0000 != 0 && 0x01u32
        & 0xff == 0x01u32 && 0x60u32 & 0xff == 0x60u32) by (bit_vector);
    let none = Seq::<char>::empty();
    filexfer::law_file_offer_round_trip(none, SINGLE_FILE_ID, name, size, mtime, FILE_REGULAR);
    assert(none + seq!['\u{0}'] + filexfer::file_entry_text(
        SINGLE_FILE_ID,
        name,
        size,
        mtime,
        FILE_REGULAR,
    ) =~= sender.file_packet(name, size, mtime).extra);
    filexfer::law_request_round_trip(sender.number, SINGLE_FILE_ID, 0);
}

/// A peer that is not allowed is neither answered nor reported, whatever it sends,
/// and leaves no trace. Nor does one that sends what is no packet, or a packet with
/// our token.
pub proof fn law_outsiders_leave_no_trace(
    s: ServiceRow,
    bytes: Seq<u8>,
    src: SocketAddr,
    allowed: bool,
)
    requires
        !allowed || proto::packet_of_bytes(bytes) is None || text::contains_text(
            proto::packet_of_bytes(bytes)->0.extra,
            s.token,
        ),
    ensures
        s.action_on(bytes, src, allowed) is Ignore,
        s.after(s.action_on(bytes, src, allowed)) == s,
{
}

/// Each packet has a number of its own until the numbers run out: the next one is
/// one higher, and after the highest comes zero. Nothing but packets of ours uses
/// numbers up.
pub proof fn law_packets_are_numbered(s: ServiceRow, a: ActionRow)
    ensures
        s.number < u32::MAX ==> s.counted().number == s.number + 1,
        s.number == u32::MAX ==> s.counted().number == 0,
        s.after(a).number == (if a is ReplyAndEmit {
            s.counted().number
        } else {
            s.number
        }),
        s.after(a).offered == s.offered,
        !(a is Ack) ==> s.after(a).pending == s.pending,
{
}

/// Every packet of ours carries the protocol's version, the next number, our nickname and our
/// host name.
pub proof fn law_packets_say_who_we_are(
    s: ServiceRow,
    body: Seq<char>,
    name: Seq<char>,
    size: u64,
    mtime: u64,
    packet_no: u32,
    file_id: u32,
    p: PacketRow,
)
    requires
        p == s.entry() || p == s.farewell() || p == s.text_packet(body) || p == s.file_packet(
            name,
            size,
            mtime,
        ) || p == s.file_request(packet_no, file_id) || p == s.dir_request(packet_no, file_id),
    ensures
        p.version == "1"@,
        p.packet_no == s.number,
        p.sender == s.nick,
        p.host == s.host,
{
}

/// A text goes out as it is, in a message that asks for a receipt and for nothing else; an offer
/// of a file is such a message with files, and names the one file with its size and its time;
/// a farewell carries our token.
pub proof fn law_packets_say_what_they_are_for(
    s: ServiceRow,
    body: Seq<char>,
    name: Seq<char>,
    size: u64,
    mtime: u64,
)
    ensures
        s.text_packet(body).command == 0x120,
        s.text_packet(body).extra == body,
        s.file_packet(name, size, mtime).command == 0x20_0120,
        s.file_packet(name, size, mtime).extra == seq!['\u{0}'] + filexfer::file_entry_text(
            0,
            name,
            size,
            mtime,
            1,
        ),
        s.farewell().command == 0x02,
        s.farewell().extra == s.token,
        s.entry().command == 0x01,
{
    assert(0x20u32 | 0x100u32 == 0x120u32 && 0x20u32 | 0x20_0000u32 | 0x100u32 == 0x20_0120u32) by (
    bit_vector);
}

/// A request for a directory names the packet and the file in hexadecimal, and is no request
/// for a file.
pub proof fn law_directory_is_asked_for(s: ServiceRow, packet_no: u32, file_id: u32)
    ensures
        ({
            let p = s.dir_request(packet_no, file_id);
            let parts = split::split_at_char(p.extra, ':');
            &&& command::command_num(p.command) == GETDIRFILES
            &&& parts.len() == 2
            &&& numeral::parse_number(parts[0], 16, u32::MAX as nat) == Some(packet_no as nat)
            &&& numeral::parse_number(parts[1], 16, u32::MAX as nat) == Some(file_id as nat)
        }),
{
    assert(0x62u32 & 0xff == 0x62u32) by (bit_vector);
    let a = numeral::hexadecimal(packet_no as nat);
    let b = numeral::hexadecimal(file_id as nat);
    numeral::lemma_numeral_value(packet_no as nat, 16);
    numeral::lemma_numeral_value(file_id as nat, 16);
    assert(!a.contains(':'));
    assert(!b.contains(':'));
    split::lemma_split_piece(a, ':', b);
    split::lemma_split_last(b, ':');
    numeral::lemma_parse_numeral(packet_no as nat, 16, u32::MAX as nat);
    numeral::lemma_parse_numeral(file_id as nat, 16, u32::MAX as nat);
}

/// An offer that was sent is waited for and can be fetched under its number; nothing that was
/// offered before under other numbers changes.
pub proof fn law_offer_is_waited_for(
    s: ServiceRow,
    packet_no: u32,
    path: Seq<char>,
    now: Instant,
    other: (u32, u32),
)
    requires
        other.0 != packet_no,
    ensures
        ({
            let after = s.offering(packet_no, path, now);
            &&& after.pending.dom().contains(packet_no) && after.pending[packet_no] == now
            &&& after.offered.dom().contains((packet_no, 0u32)) && after.offered[(packet_no, 0u32)]
                == path
            &&& after.offered.dom().contains(other) == s.offered.dom().contains(other)
            &&& s.offered.dom().contains(other) ==> after.offered[other] == s.offered[other]
            &&& after.nick == s.nick && after.group == s.group && after.host == s.host
                && after.token == s.token && after.number == s.number
        }),
{
}

/// A message of any program of the protocol is reported, from the nickname of its sender: one
/// without files with its whole text, one with files with the files that can be read from
/// it. It is answered exactly if it asks for a receipt, with its number.
pub proof fn law_every_message_is_reported(receiver: ServiceRow, p: PacketRow, src: SocketAddr)
    requires
        p.command & 0xff == SENDMSG,
        !text::contains_text(p.extra, receiver.token),
    ensures
        ({
            let a = receiver.action(p, src);
            let ev = if a is Emit {
                a->Emit_0
            } else {
                a->ReplyAndEmit_1
            };
            &&& p.command & SENDCHECKOPT == 0 ==> a is Emit
            &&& p.command & SENDCHECKOPT != 0 ==> a is ReplyAndEmit && command::command_num(
                a->ReplyAndEmit_0.command,
            ) == RECVMSG && a->ReplyAndEmit_0.extra == numeral::decimal(p.packet_no as nat)
            &&& p.command & FILEATTACHOPT == 0 ==> (ev matches IpmsgEventRow::TextReceived {
                key,
                from,
                body,
            } && from == p.sender && body == p.extra && key == addr::ipv4_text(src.ip.bits as nat)
                + seq![':'] + p.host)
            &&& p.command & FILEATTACHOPT != 0 ==> (ev matches IpmsgEventRow::FileOffered {
                key,
                from,
                packet_no,
                files,
            } && from == p.sender && packet_no == p.packet_no && files == filexfer::attachment_of(
                p.extra,
            ).1 && key == addr::ipv4_text(src.ip.bits as nat) + seq![':'] + p.host)
        }),
{
    assert(0x21u32 & 0xff == 0x21u32) by (bit_vector);
}

/// A peer of any program of the protocol is reported when it comes, with its nickname, its host
/// and its address, and when it leaves, under the same key; only the first announcement is
/// answered. It counts as one of this program exactly if its packet holds the tag.
pub proof fn law_every_peer_is_reported(receiver: ServiceRow, p: PacketRow, src: SocketAddr)
    requires
        !text::contains_text(p.extra, receiver.token),
    ensures
        ({
            let a = receiver.action(p, src);
            let ev = if a is Emit {
                a->Emit_0
            } else {
                a->ReplyAndEmit_1
            };
            let k = addr::ipv4_text(src.ip.bits as nat) + seq![':'] + p.host;
            &&& p.command & 0xff == BR_ENTRY ==> a is ReplyAndEmit
            &&& p.command & 0xff == ANSENTRY ==> a is Emit
            &&& p.command & 0xff == BR_ENTRY || p.command & 0xff == ANSENTRY ==> (ev matches
                IpmsgEventRow::Online { key, nick, host, addr, is_bigpaw, group } && key == k && nick
                == p.sender && host == p.host && addr == src && (is_bigpaw <==> text::contains_text(
                p.extra,
                BIGPAW_TAG@,
            )) && group == peer_group_of(p.extra))
            &&& p.command & 0xff == BR_EXIT ==> (a matches ActionRow::Emit(
                IpmsgEventRow::Offline { key },
            ) && key == k)
        }),
{
}

} // verus!
