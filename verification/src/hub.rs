//! What holds the parts together: which peers have fallen silent, whom to call
//! back, which way a message or a file goes, what is kept of it, and what a
//! change of the settings touches.

use crate::addr::{IpAddr, Ipv4Addr};
use crate::discovery::announce;
use crate::discovery::announce::{AnnounceError, HistoryStore};
use crate::identity::IdentityError;
use crate::ipmsg;
use crate::ipmsg::discovery::{IpmsgError, IpmsgEvent};
use crate::ipmsg::filexfer::IpmsgFileEntry;
use crate::moment::Instant;
use crate::net_ifaces;
use crate::net_ifaces::{
    broadcast_targets, same_subnet, IfaceEntry, IfaceSnapshot, IfaceView, Interface,
    InterfaceRegistry,
};
use crate::net_scope;
use crate::net_scope::{NetScope, ScopeEntry};
use crate::reach;
use crate::reach::{allowed_addrs, desired_mdns_disabled, let_through, told_addrs};
use crate::roster;
use crate::roster::{copy_addrs, DiscoveryEvent, Peer, PeerState, Protocol, Roster};
use crate::settings::Settings;
use crate::storage;
use crate::storage::{KnownPeer, Storage, StorageError};
use crate::table;
use crate::table::{Keyed, Table};
use crate::text;
use crate::text::{copy_texts, ends_with, owned, same_text, trim};
use crate::transport::filexfer;
use crate::transport::filexfer::join_path;
use crate::transport::manager;
use crate::transport::manager::{MessageEvent, SentText, TransportError, TransportEvent};
use crate::transport::proto;
use crate::transport::proto::{new_id, now_ms};
use vstd::prelude::*;
use vstd::string::StringExecFns;

verus! {

/// The time between two announcements to addresses known from earlier, in
/// nanoseconds.
pub const HISTORY_WAKE_INTERVAL: u64 = 100_000_000;

/// The time between two looks for peers that have fallen silent, in nanoseconds.
pub const ROSTER_TICK: u64 = 5_000_000_000;

/// The longest wait for an event, in nanoseconds.
pub const ROSTER_POLL: u64 = 200_000_000;

/// The time between two looks at the interfaces, in nanoseconds.
pub const IFACE_REFRESH_INTERVAL: u64 = 30_000_000_000;

/// How long a peer may be silent before it counts as offline, in nanoseconds.
pub const PEER_TIMEOUT: u64 = 60_000_000_000;

/// What can go wrong.
#[derive(Debug, Clone, PartialEq, Eq)]
pub enum CoreError {
    Identity(IdentityError),
    Mdns(String),
    Announce(AnnounceError),
    Transport(TransportError),
    Ipmsg(IpmsgError),
    /// The IP Messenger protocol is not spoken.
    IpmsgUnavailable,
    /// The peer is not in the list.
    UnknownPeer,
    Storage(StorageError),
}

fn with_prefix(prefix: &str, s: &str) -> (r: String)
    ensures
        r@ == prefix@ + s@,
{
    let mut out = owned(prefix);
    out.append(s);
    out
}

impl CoreError {
    /// The message for the user.
    pub open spec fn message(self) -> Seq<char> {
        match self {
            CoreError::Identity(e) => "identity: "@ + e.message(),
            CoreError::Mdns(why) => "mdns: "@ + why@,
            CoreError::Announce(e) => "announce: "@ + e.message(),
            CoreError::Transport(e) => "transport: "@ + e.message(),
            CoreError::Ipmsg(e) => "ipmsg: "@ + e.message(),
            CoreError::IpmsgUnavailable =>
                "IPMsg 兼容层未启用(2425 端口被占用,可能本机在跑飞秋)"@,
            CoreError::UnknownPeer => "对端不在线或未知"@,
            CoreError::Storage(e) => "storage: "@ + e.message(),
        }
    }

    /// The message for the user.
    pub fn to_text(&self) -> (r: String)
        ensures
            r@ == self.message(),
    {
        match self {
            CoreError::Identity(e) => {
                let t = e.to_text();
                with_prefix("identity: ", t.as_str())
            },
            CoreError::Mdns(why) => with_prefix("mdns: ", why.as_str()),
            CoreError::Announce(e) => {
                let t = e.to_text();
                with_prefix("announce: ", t.as_str())
            },
            CoreError::Transport(e) => {
                let t = e.to_text();
                with_prefix("transport: ", t.as_str())
            },
            CoreError::Ipmsg(e) => {
                let t = e.to_text();
                with_prefix("ipmsg: ", t.as_str())
            },
            CoreError::IpmsgUnavailable => owned(
                "IPMsg 兼容层未启用(2425 端口被占用,可能本机在跑飞秋)",
            ),
            CoreError::UnknownPeer => owned("对端不在线或未知"),
            CoreError::Storage(e) => {
                let t = e.to_text();
                with_prefix("storage: ", t.as_str())
            },
        }
    }
}

/// What is given at the start.
#[derive(Debug, Clone, PartialEq)]
pub struct CoreConfig {
    /// Where everything is kept.
    pub data_dir: String,
    /// The nickname; that of the settings or the host name if there is none.
    pub nickname: Option<String>,
}

// ---------------------------------------------------------------------------
// Names
// ---------------------------------------------------------------------------

/// A host name without the ending `.local`, however often it is there.
pub open spec fn without_local(s: Seq<char>) -> Seq<char>
    decreases s.len(),
{
    if text::has_suffix(s, ".local"@) && ".local"@.len() > 0 {
        without_local(s.take(s.len() - ".local"@.len()))
    } else {
        s
    }
}

proof fn lemma_without_local(s: Seq<char>)
    ensures
        !text::has_suffix(without_local(s), ".local"@),
    decreases s.len(),
{
    reveal_strlit(".local");
    if text::has_suffix(s, ".local"@) {
        lemma_without_local(s.take(s.len() - ".local"@.len()));
    }
}

/// A host name without the ending `.local`, however often it is there.
pub fn strip_local(host: &str) -> (r: String)
    ensures
        r@ == without_local(host@),
        !text::has_suffix(r@, ".local"@),
{
    proof {
        lemma_without_local(host@);
        reveal_strlit(".local");
    }
    let mut s = owned(host);
    while ends_with(s.as_str(), ".local")
        invariant
            ".local"@.len() == 6,
            without_local(s@) == without_local(host@),
        decreases s@.len(),
    {
        let v = crate::text::chars_of(s.as_str());
        let n: usize = v.len();
        s = crate::text::substring(&v, 0, n - 6);
        assert(v@.subrange(0, n - 6) =~= v@.take(n - 6));
    }
    s
}

/// `gethostname::gethostname`: the name of the machine, with what is no UTF-8
/// replaced. It depends on the machine, so nothing is stated of it.
#[verifier::external_body]
fn host_name() -> (r: String) {
    gethostname::gethostname().to_string_lossy().into_owned()
}

/// The name of the machine without the ending `.local`.
pub fn hostname_no_local() -> (r: String)
    ensures
        !text::has_suffix(r@, ".local"@),
{
    let host = host_name();
    strip_local(host.as_str())
}

/// The nickname where none is set.
pub fn default_nickname() -> (r: String)
    ensures
        !text::has_suffix(r@, ".local"@),
{
    hostname_no_local()
}

/// The nickname of the settings without white space around it; the host name if
/// nothing is left.
pub open spec fn nickname_in(nickname: Option<Seq<char>>, host: Seq<char>) -> Seq<char> {
    match nickname {
        Some(n) => if text::trimmed(n).len() > 0 {
            text::trimmed(n)
        } else {
            host
        },
        None => host,
    }
}

/// The nickname of the settings on a host of this name.
pub fn nickname_on(s: &Settings, host: &str) -> (r: String)
    ensures
        r@ == nickname_in(text::opt_text(s.nickname), host@),
{
    match &s.nickname {
        Some(n) => {
            let t = trim(n.as_str());
            if t.as_str().is_empty() {
                owned(host)
            } else {
                t
            }
        },
        None => owned(host),
    }
}

/// The nickname of the settings on this machine.
pub fn effective_nickname(s: &Settings) -> (r: String)
    ensures
        exists|host: Seq<char>|
            !text::has_suffix(host, ".local"@) && r@ == #[trigger] nickname_in(
                text::opt_text(s.nickname),
                host,
            ),
{
    let host = default_nickname();
    let r = nickname_on(s, host.as_str());
    assert(r@ == nickname_in(text::opt_text(s.nickname), host@));
    r
}

/// The nickname at the start: the given one, that of the settings, or the host
/// name.
pub open spec fn starting_nickname(
    given: Option<Seq<char>>,
    set: Option<Seq<char>>,
    host: Seq<char>,
) -> Seq<char> {
    match given {
        Some(n) => n,
        None => match set {
            Some(n) => n,
            None => host,
        },
    }
}

/// The nickname at the start.
pub fn first_nickname(cfg: &CoreConfig, s: &Settings, host: &str) -> (r: String)
    ensures
        r@ == starting_nickname(
            text::opt_text(cfg.nickname),
            text::opt_text(s.nickname),
            host@,
        ),
{
    match &cfg.nickname {
        Some(n) => owned(n.as_str()),
        None => {
            match &s.nickname {
                Some(n) => owned(n.as_str()),
                None => owned(host),
            }
        },
    }
}

// ---------------------------------------------------------------------------
// Silent peers
// ---------------------------------------------------------------------------

/// When a peer was last announced.
#[derive(Debug, Clone, PartialEq)]
pub struct SeenAt {
    pub fingerprint: String,
    pub at: Instant,
}

impl Keyed for SeenAt {
    open spec fn key(self) -> Seq<char> {
        self.fingerprint@
    }

    fn has_key(&self, k: &str) -> (r: bool) {
        same_text(self.fingerprint.as_str(), k)
    }
}

/// When peers were last announced, by fingerprint.
pub open spec fn times(m: Map<Seq<char>, SeenAt>) -> Map<Seq<char>, Instant> {
    m.map_values(|s: SeenAt| s.at)
}

/// Whether a peer has been silent for longer than is allowed.
pub open spec fn is_stale(m: Map<Seq<char>, Instant>, fp: Seq<char>, now: Instant, timeout: u64) -> bool {
    m.dom().contains(fp) && now.elapsed_since(m[fp]) > timeout
}

/// Whether a list holds the peers that have been silent for too long, each once.
pub open spec fn is_stale_list(
    m: Map<Seq<char>, Instant>,
    now: Instant,
    timeout: u64,
    list: Seq<Seq<char>>,
) -> bool {
    &&& list.no_duplicates()
    &&& forall|fp: Seq<char>| #[trigger] list.contains(fp) == is_stale(m, fp, now, timeout)
}

/// The peers that have been silent for longer than is allowed, in no particular
/// order.
pub fn stale_fingerprints(last_seen: &Table<SeenAt>, now: Instant, timeout: u64) -> (r: Vec<String>)
    ensures
        is_stale_list(times(last_seen@), now, timeout, text::texts(r@)),
{
    let rows: &Vec<SeenAt> = last_seen.rows();
    let mut out: Vec<String> = Vec::new();
    let ghost m = times(last_seen@);
    let ghost mut at: Seq<int> = Seq::empty();
    let mut i: usize = 0;
    while i < rows.len()
        invariant
            i <= rows.len(),
            at.len() == out@.len(),
            forall|k: int|
                0 <= k < at.len() ==> 0 <= #[trigger] at[k] < i && out@[k]@
                    == rows@[at[k]].fingerprint@ && now.elapsed_since(rows@[at[k]].at) > timeout,
            forall|k: int, l: int| 0 <= k < l < at.len() ==> #[trigger] at[k] < #[trigger] at[l],
            forall|k: int|
                0 <= k < i && now.elapsed_since((#[trigger] rows@[k]).at) > timeout ==> exists|l: int|
                    0 <= l < out@.len() && (#[trigger] out@[l])@ == rows@[k].fingerprint@,
        decreases rows.len() - i,
    {
        let ghost before = out@;
        if now.since(rows[i].at) > timeout {
            out.push(owned(rows[i].fingerprint.as_str()));
            proof {
                at = at.push(i as int);
                assert(out@[before.len() as int]@ == rows@[i as int].fingerprint@);
                assert forall|k: int| 0 <= k < i + 1 && now.elapsed_since(
                    (#[trigger] rows@[k]).at,
                ) > timeout implies exists|l: int|
                    0 <= l < out@.len() && (#[trigger] out@[l])@ == rows@[k].fingerprint@ by {
                    if k < i {
                        let l = choose|l: int|
                            0 <= l < before.len() && (#[trigger] before[l])@
                                == rows@[k].fingerprint@;
                        assert(out@[l]@ == rows@[k].fingerprint@);
                    } else {
                        assert(out@[before.len() as int]@ == rows@[k].fingerprint@);
                    }
                }
            }
        }
        i = i + 1;
    }
    proof {
        table::lemma_map_of(rows@);
        let list = text::texts(out@);
        assert forall|a: int, b: int|
            0 <= a < list.len() && 0 <= b < list.len() && a != b implies list[a] != list[b] by {
            assert(list[a] == rows@[at[a]].key());
            assert(list[b] == rows@[at[b]].key());
            if a < b {
                assert(at[a] < at[b]);
                assert(rows@[at[a]].key() != rows@[at[b]].key());
            } else {
                assert(at[b] < at[a]);
                assert(rows@[at[b]].key() != rows@[at[a]].key());
            }
        }
        assert forall|fp: Seq<char>| #[trigger] list.contains(fp) == is_stale(
            m,
            fp,
            now,
            timeout,
        ) by {
            if list.contains(fp) {
                let a = choose|a: int| 0 <= a < list.len() && list[a] == fp;
                assert(rows@[at[a]].key() == fp);
                assert(table::map_of(rows@)[fp] == rows@[at[a]]);
            }
            if is_stale(m, fp, now, timeout) {
                let k = choose|k: int| 0 <= k < rows@.len() && (#[trigger] rows@[k]).key() == fp;
                assert(table::map_of(rows@)[fp] == rows@[k]);
                let l = choose|l: int|
                    0 <= l < out@.len() && (#[trigger] out@[l])@ == rows@[k].fingerprint@;
                assert(list[l] == fp);
            }
        }
    }
    out
}

// ---------------------------------------------------------------------------
// Calling back
// ---------------------------------------------------------------------------

/// Which addresses of a peer that could be called back are remembered: those in
/// one of our subnets, or all if no interface is known.
pub open spec fn remembered(addrs: Seq<IpAddr>, rows: Seq<net_ifaces::IfaceRow>) -> Seq<IpAddr> {
    if rows.len() == 0 {
        addrs
    } else {
        addrs.filter(|a: IpAddr| net_ifaces::is_near(a, rows))
    }
}

/// Which addresses of a peer that could be called back are remembered.
pub fn addrs_to_record(addrs: &Vec<IpAddr>, entries: &[IfaceEntry]) -> (r: Vec<IpAddr>)
    ensures
        r@ == remembered(addrs@, net_ifaces::rows(entries@)),
{
    if entries.len() == 0 {
        return copy_addrs(addrs);
    }
    let ghost rows = net_ifaces::rows(entries@);
    let ghost p = |a: IpAddr| net_ifaces::is_near(a, rows);
    let mut out: Vec<IpAddr> = Vec::new();
    let mut i: usize = 0;
    proof {
        reveal(Seq::filter);
        assert(addrs@.take(0).filter(p) =~= Seq::<IpAddr>::empty());
    }
    while i < addrs.len()
        invariant
            i <= addrs.len(),
            rows == net_ifaces::rows(entries@),
            p == (|a: IpAddr| net_ifaces::is_near(a, rows)),
            out@ == addrs@.take(i as int).filter(p),
        decreases addrs.len() - i,
    {
        let a: IpAddr = addrs[i];
        proof {
            reveal(Seq::filter);
            assert(addrs@.take(i + 1).drop_last() =~= addrs@.take(i as int));
            assert(addrs@.take(i + 1).last() == a);
        }
        if same_subnet(a, entries) {
            out.push(a);
        }
        i = i + 1;
    }
    assert(addrs@.take(i as int) =~= addrs@);
    out
}

/// The addresses once several were seen, one after the other.
pub open spec fn all_recorded(s: Seq<IpAddr>, ips: Seq<IpAddr>) -> Seq<IpAddr>
    decreases ips.len(),
{
    if ips.len() == 0 {
        s
    } else {
        announce::recorded(all_recorded(s, ips.drop_last()), ips.last())
    }
}

fn record_all(h: &mut HistoryStore, ips: &Vec<IpAddr>)
    ensures
        final(h)@ == all_recorded(old(h)@, ips@),
{
    let ghost given = h@;
    let mut i: usize = 0;
    assert(ips@.take(0) =~= Seq::<IpAddr>::empty());
    while i < ips.len()
        invariant
            i <= ips.len(),
            h@ == all_recorded(given, ips@.take(i as int)),
        decreases ips.len() - i,
    {
        proof {
            assert(ips@.take(i + 1).drop_last() =~= ips@.take(i as int));
            assert(ips@.take(i + 1).last() == ips@[i as int]);
        }
        h.record(ips[i]);
        i = i + 1;
    }
    assert(ips@.take(i as int) =~= ips@);
}

// ---------------------------------------------------------------------------
// Broadcast targets
// ---------------------------------------------------------------------------

/// The broadcast addresses of the IP Messenger protocol, and the generation of
/// the interfaces that they come from. Older interfaces never replace newer ones.
#[derive(Debug)]
pub struct IpmsgBcastGuard {
    targets: Vec<Ipv4Addr>,
    applied_gen: u64,
}

/// The broadcast addresses and their generation.
#[verifier::ext_equal]
pub struct BcastRow {
    pub targets: Seq<Ipv4Addr>,
    pub generation: u64,
}

/// The broadcast addresses once interfaces of a generation have come.
pub open spec fn after_snapshot(
    b: BcastRow,
    rows: Seq<net_ifaces::IfaceRow>,
    generation: u64,
) -> BcastRow {
    if generation > b.generation {
        BcastRow { targets: net_ifaces::broadcasts_of(rows), generation }
    } else {
        b
    }
}

impl View for IpmsgBcastGuard {
    type V = BcastRow;

    closed spec fn view(&self) -> BcastRow {
        BcastRow { targets: self.targets@, generation: self.applied_gen }
    }
}

impl IpmsgBcastGuard {
    /// Starts with addresses and their generation.
    pub fn new(targets: Vec<Ipv4Addr>, initial_gen: u64) -> (r: Self)
        ensures
            r@ == (BcastRow { targets: targets@, generation: initial_gen }),
    {
        IpmsgBcastGuard { targets, applied_gen: initial_gen }
    }

    /// Takes over the addresses of newer interfaces.
    pub fn apply_if_newer(&mut self, snapshot: &IfaceSnapshot)
        ensures
            final(self)@ == after_snapshot(
                old(self)@,
                net_ifaces::rows(snapshot.entries@),
                snapshot.generation,
            ),
    {
        if snapshot.generation > self.applied_gen {
            self.targets = broadcast_targets(snapshot.entries.as_slice());
            self.applied_gen = snapshot.generation;
        }
    }

    /// The addresses.
    pub fn targets(&self) -> (r: Vec<Ipv4Addr>)
        ensures
            r@ == self@.targets,
    {
        let mut v: Vec<Ipv4Addr> = Vec::new();
        let mut i: usize = 0;
        while i < self.targets.len()
            invariant
                i <= self.targets.len(),
                v@ == self.targets@.take(i as int),
            decreases self.targets.len() - i,
        {
            v.push(self.targets[i]);
            i = i + 1;
        }
        assert(v@ =~= self.targets@);
        v
    }
}

/// The generation never goes back.
pub proof fn law_generation_never_goes_back(
    b: BcastRow,
    rows: Seq<net_ifaces::IfaceRow>,
    generation: u64,
)
    ensures
        after_snapshot(b, rows, generation).generation >= b.generation,
        after_snapshot(b, rows, generation).generation >= generation,
        generation <= b.generation ==> after_snapshot(b, rows, generation) == b,
        after_snapshot(after_snapshot(b, rows, generation), rows, generation) == after_snapshot(
            b,
            rows,
            generation,
        ),
{
}

/// Of interfaces of two generations the newer ones win, in whatever order they
/// come.
pub proof fn law_newer_interfaces_win(
    b: BcastRow,
    r1: Seq<net_ifaces::IfaceRow>,
    g1: u64,
    r2: Seq<net_ifaces::IfaceRow>,
    g2: u64,
)
    requires
        g1 != g2,
    ensures
        after_snapshot(after_snapshot(b, r1, g1), r2, g2) == after_snapshot(
            after_snapshot(b, r2, g2),
            r1,
            g1,
        ),
{
}

fn same_names(a: &Vec<String>, b: &Vec<String>) -> (r: bool)
    ensures
        r == (text::texts(a@) == text::texts(b@)),
{
    if a.len() != b.len() {
        assert(text::texts(a@).len() != text::texts(b@).len());
        return false;
    }
    let mut i: usize = 0;
    while i < a.len()
        invariant
            i <= a.len(),
            a.len() == b.len(),
            forall|j: int| 0 <= j < i ==> (#[trigger] a@[j])@ == b@[j]@,
        decreases a.len() - i,
    {
        if !same_text(a[i].as_str(), b[i].as_str()) {
            assert(text::texts(a@)[i as int] != text::texts(b@)[i as int]);
            return false;
        }
        i = i + 1;
    }
    assert(text::texts(a@) =~= text::texts(b@));
    true
}

/// Excludes interfaces. The broadcast addresses follow if the interfaces in use
/// have changed. Where the list of names has changed the old one is given back:
/// it is to be told on, also for names that no interface has now.
pub fn apply_excluded_interfaces(
    registry: &mut InterfaceRegistry,
    ipmsg_bcast: &mut IpmsgBcastGuard,
    excluded: &Vec<String>,
    ifaces: &[Interface],
) -> (r: Option<Vec<String>>)
    requires
        old(registry).generation() < u64::MAX,
    ensures
        r is Some <==> text::texts(excluded@) != old(registry).excluded_names(),
        r matches Some(prev) ==> text::texts(prev@) == old(registry).excluded_names(),
        final(registry).excluded_names() == text::texts(excluded@),
        ({
            let listed = InterfaceRegistry::rows_from(ifaces@, text::texts(excluded@));
            &&& final(registry).current_rows() == listed
            &&& if listed == old(registry).current_rows() {
                &&& final(registry).generation() == old(registry).generation()
                &&& final(ipmsg_bcast)@ == old(ipmsg_bcast)@
            } else {
                &&& final(registry).generation() == old(registry).generation() + 1
                &&& final(ipmsg_bcast)@ == after_snapshot(
                    old(ipmsg_bcast)@,
                    listed,
                    final(registry).generation(),
                )
            }
        }),
{
    let (prev, snapshot) = registry.set_excluded(copy_texts(excluded), ifaces);
    match snapshot {
        Some(s) => {
            ipmsg_bcast.apply_if_newer(&s);
        },
        None => {},
    }
    if same_names(&prev, excluded) {
        None
    } else {
        Some(prev)
    }
}

// ---------------------------------------------------------------------------
// What is kept of events
// ---------------------------------------------------------------------------

/// A number as a signed one of the same bits.
pub open spec fn as_signed(n: u64) -> i64 {
    if n <= i64::MAX {
        n as i64
    } else {
        (n - 0x1_0000_0000_0000_0000) as i64
    }
}

fn to_signed(n: u64) -> (r: i64)
    ensures
        r == as_signed(n),
{
    if n <= 0x7FFF_FFFF_FFFF_FFFF {
        n as i64
    } else {
        let below: u64 = 0xFFFF_FFFF_FFFF_FFFF - n;
        -(below as i64) - 1
    }
}

/// What is kept once an event has come. Progress is not kept.
pub open spec fn persisted(
    r: Map<Seq<char>, storage::ItemRow>,
    ev: manager::EventRow,
    now: u64,
) -> Map<Seq<char>, storage::ItemRow> {
    match ev {
        manager::EventRow::Message { peer_fp, id, body, ts_ms, sender_fp } => storage::added(
            r,
            storage::ItemRow::Text {
                id,
                peer_fp,
                direction: "in"@,
                body,
                ts_ms: as_signed(ts_ms),
                sender_fp,
            },
        ),
        manager::EventRow::FileOffered { xfer_id, peer_fp, name, size, is_dir } => storage::added(
            r,
            storage::ItemRow::File {
                xfer_id,
                peer_fp,
                direction: "in"@,
                name,
                size: as_signed(size),
                is_dir,
                status: "offered"@,
                path: None,
                ts_ms: as_signed(now),
            },
        ),
        manager::EventRow::FileDone { xfer_id, path } => storage::advanced(
            r,
            xfer_id,
            "done"@,
            Some(path),
        ),
        manager::EventRow::FileFailed { xfer_id, .. } => storage::advanced(
            r,
            xfer_id,
            "failed"@,
            None,
        ),
        _ => r,
    }
}

fn copy_opt(o: &Option<String>) -> (r: Option<String>)
    ensures
        text::opt_text(r) == text::opt_text(*o),
{
    match o {
        Some(s) => Some(owned(s.as_str())),
        None => None,
    }
}

/// Keeps an event. It is handed on only after that.
pub fn persist_event(storage: &mut Storage, ev: &TransportEvent, now: u64)
    ensures
        final(storage).records() == persisted(old(storage).records(), ev@, now),
        final(storage).known() == old(storage).known(),
        final(storage).kept_groups() == old(storage).kept_groups(),
{
    match ev {
        TransportEvent::Message(m) => {
            storage.insert_message(
                m.id.as_str(),
                m.peer_fp.as_str(),
                "in",
                m.body.as_str(),
                to_signed(m.ts_ms),
                copy_opt(&m.sender_fp),
            );
        },
        TransportEvent::FileOffered { xfer_id, peer_fp, name, size, is_dir } => {
            storage.insert_transfer(
                xfer_id.as_str(),
                peer_fp.as_str(),
                "in",
                name.as_str(),
                to_signed(*size),
                *is_dir,
                "offered",
                to_signed(now),
            );
        },
        TransportEvent::FileDone { xfer_id, path } => {
            storage.update_transfer(xfer_id.as_str(), "done", Some(owned(path.as_str())));
        },
        TransportEvent::FileFailed { xfer_id, .. } => {
            storage.update_transfer(xfer_id.as_str(), "failed", None);
        },
        TransportEvent::FileProgress { .. } => {},
        TransportEvent::Group { .. } => {},
        TransportEvent::GroupsChanged(_) => {},
    }
}

// ---------------------------------------------------------------------------
// The IP Messenger protocol
// ---------------------------------------------------------------------------

/// A file or directory that a peer of the IP Messenger protocol offers.
#[derive(Debug, Clone, PartialEq)]
pub struct IpmsgOffer {
    pub xfer_id: String,
    pub peer_fp: String,
    pub packet_no: u32,
    pub file_id: u32,
    pub name: String,
    pub size: u64,
    pub is_dir: bool,
}

/// An offer by value.
#[verifier::ext_equal]
pub struct OfferRow {
    pub xfer_id: Seq<char>,
    pub peer_fp: Seq<char>,
    pub packet_no: u32,
    pub file_id: u32,
    pub name: Seq<char>,
    pub size: u64,
    pub is_dir: bool,
}

impl View for IpmsgOffer {
    type V = OfferRow;

    open spec fn view(&self) -> OfferRow {
        OfferRow {
            xfer_id: self.xfer_id@,
            peer_fp: self.peer_fp@,
            packet_no: self.packet_no,
            file_id: self.file_id,
            name: self.name@,
            size: self.size,
            is_dir: self.is_dir,
        }
    }
}

impl Keyed for IpmsgOffer {
    open spec fn key(self) -> Seq<char> {
        self.xfer_id@
    }

    fn has_key(&self, k: &str) -> (r: bool) {
        same_text(self.xfer_id.as_str(), k)
    }
}

/// The offers by the id of the transfer.
pub open spec fn offer_rows(m: Map<Seq<char>, IpmsgOffer>) -> Map<Seq<char>, OfferRow> {
    m.map_values(|o: IpmsgOffer| o@)
}

/// The name under which a peer of the IP Messenger protocol stands in the list.
pub open spec fn ipmsg_fp(key: Seq<char>) -> Seq<char> {
    "ipmsg:"@ + key
}

/// What comes of an event of the IP Messenger protocol.
#[derive(Debug, Clone, PartialEq)]
pub struct Forwarded {
    pub discovery: Option<DiscoveryEvent>,
    pub events: Vec<TransportEvent>,
}

/// Events by value.
pub open spec fn event_rows(v: Seq<TransportEvent>) -> Seq<manager::EventRow> {
    v.map_values(|e: TransportEvent| e@)
}

/// How many ids an event needs.
pub open spec fn ids_needed(ev: ipmsg::discovery::IpmsgEventRow) -> nat {
    match ev {
        ipmsg::discovery::IpmsgEventRow::TextReceived { .. } => 1,
        ipmsg::discovery::IpmsgEventRow::FileOffered { files, .. } => files.len(),
        _ => 0,
    }
}

/// What discovery is told. A peer that speaks the native protocol too is left to
/// the native discovery, so that it is not listed twice.
pub open spec fn told(ev: ipmsg::discovery::IpmsgEventRow) -> Option<roster::EventRow> {
    match ev {
        ipmsg::discovery::IpmsgEventRow::Online { key, nick, addr, is_bigpaw, .. } =>
            if is_bigpaw {
            None
        } else {
            Some(
                roster::EventRow::Seen {
                    fingerprint: ipmsg_fp(key),
                    nickname: nick,
                    addrs: seq![IpAddr::V4(addr.ip)],
                    port: addr.port,
                    protocol: Protocol::Ipmsg,
                },
            )
        },
        ipmsg::discovery::IpmsgEventRow::Offline { key } => Some(
            roster::EventRow::Lost { fingerprint: ipmsg_fp(key) },
        ),
        _ => None,
    }
}

/// The offer of a file.
pub open spec fn offer_of(
    key: Seq<char>,
    packet_no: u32,
    f: ipmsg::filexfer::FileRow,
    id: Seq<char>,
) -> OfferRow {
    OfferRow {
        xfer_id: id,
        peer_fp: ipmsg_fp(key),
        packet_no,
        file_id: f.file_id,
        name: f.name,
        size: f.size,
        is_dir: f.is_dir,
    }
}

/// What is reported of an offer.
pub open spec fn offer_event(o: OfferRow) -> manager::EventRow {
    manager::EventRow::FileOffered {
        xfer_id: o.xfer_id,
        peer_fp: o.peer_fp,
        name: o.name,
        size: o.size,
        is_dir: o.is_dir,
    }
}

/// The offers of the first `n` files.
pub open spec fn offers_of(
    key: Seq<char>,
    packet_no: u32,
    files: Seq<ipmsg::filexfer::FileRow>,
    ids: Seq<Seq<char>>,
    n: int,
) -> Seq<OfferRow>
    decreases n,
{
    if n <= 0 {
        Seq::empty()
    } else {
        offers_of(key, packet_no, files, ids, n - 1).push(
            offer_of(key, packet_no, files[n - 1], ids[n - 1]),
        )
    }
}

/// The offers with more of them.
pub open spec fn with_offers(m: Map<Seq<char>, OfferRow>, list: Seq<OfferRow>) -> Map<
    Seq<char>,
    OfferRow,
>
    decreases list.len(),
{
    if list.len() == 0 {
        m
    } else {
        with_offers(m, list.drop_last()).insert(list.last().xfer_id, list.last())
    }
}

/// The offers of an event, under the given ids.
pub open spec fn new_offers(
    ev: ipmsg::discovery::IpmsgEventRow,
    ids: Seq<Seq<char>>,
) -> Seq<OfferRow> {
    match ev {
        ipmsg::discovery::IpmsgEventRow::FileOffered { key, packet_no, files, .. } => offers_of(
            key,
            packet_no,
            files,
            ids,
            files.len() as int,
        ),
        _ => Seq::empty(),
    }
}

/// What is reported of an event, under the given ids and at the given time.
pub open spec fn reported(
    ev: ipmsg::discovery::IpmsgEventRow,
    ids: Seq<Seq<char>>,
    now: u64,
) -> Seq<manager::EventRow> {
    match ev {
        ipmsg::discovery::IpmsgEventRow::TextReceived { key, body, .. } => seq![
            manager::EventRow::Message {
                peer_fp: ipmsg_fp(key),
                id: ids[0],
                body,
                ts_ms: now,
                sender_fp: None,
            },
        ],
        _ => new_offers(ev, ids).map_values(|o: OfferRow| offer_event(o)),
    }
}

/// Takes in an event of the IP Messenger protocol, with ids for what it reports.
pub fn forward_ipmsg_event_as(
    offers: &mut Table<IpmsgOffer>,
    ev: IpmsgEvent,
    ids: &Vec<String>,
    now: u64,
) -> (r: Forwarded)
    requires
        ids@.len() >= ids_needed(ev@),
    ensures
        crate::discovery::mdns::event_row(r.discovery) == told(ev@),
        event_rows(r.events@) == reported(ev@, text::texts(ids@), now),
        offer_rows(final(offers)@) == with_offers(
            offer_rows(old(offers)@),
            new_offers(ev@, text::texts(ids@)),
        ),
{
    let ghost tids = text::texts(ids@);
    match ev {
        IpmsgEvent::Online { key, nick, host, addr, is_bigpaw, group } => {
            assert(event_rows(Seq::<TransportEvent>::empty()) =~= reported(ev@, tids, now));
            if is_bigpaw {
                return Forwarded { discovery: None, events: Vec::new() };
            }
            let mut addrs: Vec<IpAddr> = Vec::new();
            addrs.push(IpAddr::V4(addr.ip));
            assert(addrs@ =~= seq![IpAddr::V4(addr.ip)]);
            let seen = DiscoveryEvent::Seen {
                fingerprint: with_prefix("ipmsg:", key.as_str()),
                nickname: nick,
                addrs,
                port: addr.port,
                protocol: Protocol::Ipmsg,
            };
            Forwarded { discovery: Some(seen), events: Vec::new() }
        },
        IpmsgEvent::Offline { key } => {
            assert(event_rows(Seq::<TransportEvent>::empty()) =~= reported(ev@, tids, now));
            let lost = DiscoveryEvent::Lost { fingerprint: with_prefix("ipmsg:", key.as_str()) };
            Forwarded { discovery: Some(lost), events: Vec::new() }
        },
        IpmsgEvent::TextReceived { key, from, body } => {
            let mut events: Vec<TransportEvent> = Vec::new();
            events.push(
                TransportEvent::Message(
                    MessageEvent {
                        peer_fp: with_prefix("ipmsg:", key.as_str()),
                        id: owned(ids[0].as_str()),
                        body,
                        ts_ms: now,
                        sender_fp: None,
                    },
                ),
            );
            assert(event_rows(events@) =~= reported(ev@, tids, now));
            Forwarded { discovery: None, events }
        },
        IpmsgEvent::FileOffered { key, from, packet_no, files } => {
            let ghost rows = ipmsg::filexfer::file_rows(files@);
            let ghost given = offer_rows(offers@);
            let mut events: Vec<TransportEvent> = Vec::new();
            let mut i: usize = 0;
            let ghost f = |o: OfferRow| offer_event(o);
            proof {
                assert(event_rows(events@) =~= offers_of(
                    key@,
                    packet_no,
                    rows,
                    tids,
                    0,
                ).map_values(f));
            }
            while i < files.len()
                invariant
                    i <= files.len(),
                    files@.len() <= ids@.len(),
                    tids == text::texts(ids@),
                    rows == ipmsg::filexfer::file_rows(files@),
                    f == (|o: OfferRow| offer_event(o)),
                    event_rows(events@) == offers_of(
                        key@,
                        packet_no,
                        rows,
                        tids,
                        i as int,
                    ).map_values(f),
                    offer_rows(offers@) == with_offers(
                        given,
                        offers_of(key@, packet_no, rows, tids, i as int),
                    ),
                decreases files.len() - i,
            {
                let e: &IpmsgFileEntry = &files[i];
                let id: &str = ids[i].as_str();
                let ghost before = offers@;
                let ghost before_events = events@;
                let ghost had = offers_of(key@, packet_no, rows, tids, i as int);
                let offer = IpmsgOffer {
                    xfer_id: owned(id),
                    peer_fp: with_prefix("ipmsg:", key.as_str()),
                    packet_no,
                    file_id: e.file_id,
                    name: owned(e.name.as_str()),
                    size: e.size,
                    is_dir: e.is_dir,
                };
                let ghost row = offer@;
                proof {
                    assert(rows[i as int] == files@[i as int]@);
                    assert(tids[i as int] == id@);
                    assert(row =~= offer_of(key@, packet_no, rows[i as int], tids[i as int]));
                    let next = offers_of(key@, packet_no, rows, tids, i + 1);
                    assert(next.drop_last() =~= had);
                    assert(next.last() == row);
                    assert(next.map_values(f) =~= had.map_values(f).push(offer_event(row)));
                }
                offers.insert(offer, id);
                proof {
                    assert(offer_rows(offers@) =~= offer_rows(before).insert(id@, row));
                }
                let event = TransportEvent::FileOffered {
                    xfer_id: owned(id),
                    peer_fp: with_prefix("ipmsg:", key.as_str()),
                    name: owned(e.name.as_str()),
                    size: e.size,
                    is_dir: e.is_dir,
                };
                let ghost event_row = event@;
                events.push(event);
                assert(event_rows(events@) =~= event_rows(before_events).push(event_row));
                i = i + 1;
            }
            Forwarded { discovery: None, events }
        },
    }
}

/// Takes in an event of the IP Messenger protocol.
pub fn forward_ipmsg_event(offers: &mut Table<IpmsgOffer>, ev: IpmsgEvent) -> (r: Forwarded)
    ensures
        crate::discovery::mdns::event_row(r.discovery) == told(ev@),
        exists|ids: Seq<Seq<char>>, now: u64|
            {
                &&& event_rows(r.events@) == #[trigger] reported(ev@, ids, now)
                &&& offer_rows(final(offers)@) == with_offers(
                    offer_rows(old(offers)@),
                    new_offers(ev@, ids),
                )
                &&& ids.len() == ids_needed(ev@)
                &&& forall|i: int| 0 <= i < ids.len() ==> proto::is_random_id(#[trigger] ids[i])
            },
{
    let n: usize = match &ev {
        IpmsgEvent::TextReceived { .. } => 1,
        IpmsgEvent::FileOffered { files, .. } => files.len(),
        _ => 0,
    };
    assert(n == ids_needed(ev@));
    let mut ids: Vec<String> = Vec::new();
    while ids.len() < n
        invariant
            ids@.len() <= n,
            forall|i: int| 0 <= i < ids@.len() ==> proto::is_random_id((#[trigger] ids@[i])@),
        decreases n - ids.len(),
    {
        ids.push(new_id());
    }
    let now: u64 = now_ms();
    let ghost given = ev@;
    let r = forward_ipmsg_event_as(offers, ev, &ids, now);
    proof {
        let tids = text::texts(ids@);
        assert forall|i: int| 0 <= i < tids.len() implies proto::is_random_id(
            #[trigger] tids[i],
        ) by {
            assert(tids[i] == ids@[i]@);
        }
        assert(event_rows(r.events@) == reported(given, tids, now));
    }
    r
}

/// A peer that speaks the native protocol as well is not listed a second time.
pub proof fn law_native_peer_is_not_listed_twice(
    key: Seq<char>,
    nick: Seq<char>,
    host: Seq<char>,
    addr: crate::addr::SocketAddr,
    group: Option<Seq<char>>,
)
    ensures
        told(
            ipmsg::discovery::IpmsgEventRow::Online {
                key,
                nick,
                host,
                addr,
                is_bigpaw: true,
                group,
            },
        ) is None,
{
}

/// Every file and every directory that is offered is reported and can be found
/// again under the id that was reported.
pub proof fn law_offer_is_found_again(
    m: Map<Seq<char>, OfferRow>,
    key: Seq<char>,
    packet_no: u32,
    files: Seq<ipmsg::filexfer::FileRow>,
    ids: Seq<Seq<char>>,
    n: int,
    i: int,
)
    requires
        ids.no_duplicates(),
        0 <= i < n <= files.len() <= ids.len(),
    ensures
        with_offers(m, offers_of(key, packet_no, files, ids, n)).dom().contains(ids[i]),
        with_offers(m, offers_of(key, packet_no, files, ids, n))[ids[i]] == offer_of(
            key,
            packet_no,
            files[i],
            ids[i],
        ),
    decreases n,
{
    let list = offers_of(key, packet_no, files, ids, n);
    let rest = offers_of(key, packet_no, files, ids, n - 1);
    assert(list.drop_last() =~= rest);
    assert(list.last() == offer_of(key, packet_no, files[n - 1], ids[n - 1]));
    if i < n - 1 {
        law_offer_is_found_again(m, key, packet_no, files, ids, n - 1, i);
        assert(ids[i] != ids[n - 1]);
    }
}

// ---------------------------------------------------------------------------
// The whole
// ---------------------------------------------------------------------------

/// A peer that is being called back.
#[derive(Debug, Clone, PartialEq)]
pub struct Calling {
    pub fingerprint: String,
}

impl Keyed for Calling {
    open spec fn key(self) -> Seq<char> {
        self.fingerprint@
    }

    fn has_key(&self, k: &str) -> (r: bool) {
        same_text(self.fingerprint.as_str(), k)
    }
}

/// Whom to call back.
#[derive(Debug, Clone, PartialEq)]
pub struct ProbeTarget {
    pub fingerprint: String,
    pub addrs: Vec<IpAddr>,
    pub port: u16,
    /// The interfaces in use, by which its addresses are remembered.
    pub entries: Vec<IfaceEntry>,
}

/// What follows from an event of discovery.
#[derive(Debug)]
pub struct Noted {
    /// The new list of peers, if it has changed.
    pub publish: Option<Vec<Peer>>,
    /// Whom to call back.
    pub probe: Option<ProbeTarget>,
}

/// Which way something goes to a peer.
#[derive(Debug, Clone, PartialEq)]
pub enum Route {
    Native { addrs: Vec<IpAddr>, port: u16 },
    Ipmsg { ip: IpAddr, port: u16 },
}

/// Which way something goes to a peer, by value.
#[verifier::ext_equal]
pub enum RouteRow {
    Native { addrs: Seq<IpAddr>, port: u16 },
    Ipmsg { ip: IpAddr, port: u16 },
}

impl View for Route {
    type V = RouteRow;

    open spec fn view(&self) -> RouteRow {
        match *self {
            Route::Native { addrs, port } => RouteRow::Native { addrs: addrs@, port },
            Route::Ipmsg { ip, port } => RouteRow::Ipmsg { ip, port },
        }
    }
}

/// What is done about an answered offer.
#[derive(Debug, Clone, PartialEq)]
pub enum Answer {
    /// The native transport answers.
    Native,
    /// Nothing: not fetching is declining.
    Declined,
    /// The file or directory is fetched.
    Fetch {
        ip: IpAddr,
        port: u16,
        packet_no: u32,
        file_id: u32,
        size: u64,
        is_dir: bool,
        save_path: String,
    },
}

/// What is done about an answered offer, by value.
#[verifier::ext_equal]
pub enum AnswerRow {
    Native,
    Declined,
    Fetch {
        ip: IpAddr,
        port: u16,
        packet_no: u32,
        file_id: u32,
        size: u64,
        is_dir: bool,
        save_path: Seq<char>,
    },
}

impl View for Answer {
    type V = AnswerRow;

    open spec fn view(&self) -> AnswerRow {
        match *self {
            Answer::Native => AnswerRow::Native,
            Answer::Declined => AnswerRow::Declined,
            Answer::Fetch { ip, port, packet_no, file_id, size, is_dir, save_path } =>
                AnswerRow::Fetch {
                ip,
                port,
                packet_no,
                file_id,
                size,
                is_dir,
                save_path: save_path@,
            },
        }
    }
}

/// What a change of the settings touches.
#[derive(Debug, Clone, PartialEq)]
pub struct SettingsEffect {
    /// The names that were excluded before, if others are now.
    pub were_excluded: Option<Vec<String>>,
    /// The new nickname, if it is another one.
    pub rename: Option<String>,
}

/// A peer known from earlier as it stands in the list at the start.
pub open spec fn seed_of(k: storage::KnownRow, addr: Option<IpAddr>) -> roster::PeerRow {
    roster::PeerRow {
        fingerprint: k.fingerprint,
        nickname: k.nickname,
        addrs: match addr {
            Some(a) => seq![a],
            None => Seq::empty(),
        },
        port: 0,
        protocol: if k.protocol == "ipmsg"@ {
            Protocol::Ipmsg
        } else {
            Protocol::Native
        },
        state: PeerState::Offline,
    }
}

/// A peer known from earlier as it stands in the list at the start. `addr` is
/// its last address, if that can be read.
pub fn seed_peer(k: KnownPeer, addr: Option<IpAddr>) -> (r: Peer)
    ensures
        r@ == seed_of(k@, addr),
{
    let mut addrs: Vec<IpAddr> = Vec::new();
    match addr {
        Some(a) => {
            addrs.push(a);
            assert(addrs@ =~= seq![a]);
        },
        None => {},
    }
    let protocol = if same_text(k.protocol.as_str(), "ipmsg") {
        Protocol::Ipmsg
    } else {
        Protocol::Native
    };
    let r = Peer {
        fingerprint: k.fingerprint,
        nickname: k.nickname,
        addrs,
        port: 0,
        protocol,
        state: PeerState::Offline,
    };
    assert(r@ =~= seed_of(k@, addr));
    r
}

/// What a protocol is called.
pub open spec fn protocol_text(p: Protocol) -> Seq<char> {
    match p {
        Protocol::Native => "native"@,
        Protocol::Ipmsg => "ipmsg"@,
    }
}

/// The known peers once an event has come: one that was announced is kept.
pub open spec fn known_after(
    known: Map<Seq<char>, storage::KnownRow>,
    ev: roster::EventRow,
    addr: Option<Seq<char>>,
    group: Option<Seq<char>>,
    now: u64,
) -> Map<Seq<char>, storage::KnownRow> {
    match ev {
        roster::EventRow::Seen { fingerprint, nickname, protocol, .. } => known.insert(
            fingerprint,
            storage::seen_again(
                known,
                storage::KnownRow {
                    fingerprint,
                    nickname,
                    protocol: protocol_text(protocol),
                    last_addr: addr,
                    last_seen_ms: as_signed(now),
                    group,
                },
            ),
        ),
        _ => known,
    }
}

/// When peers were last announced, once an event has come.
pub open spec fn seen_after(
    seen: Map<Seq<char>, Instant>,
    ev: roster::EventRow,
    now: Instant,
) -> Map<Seq<char>, Instant> {
    match ev {
        roster::EventRow::Seen { fingerprint, .. } => seen.insert(fingerprint, now),
        _ => seen,
    }
}

/// Whether the peer of an event is to be called back: it was announced, speaks
/// the native protocol, has not been reached yet, and is not being called.
pub open spec fn wants_call(
    peers: Map<Seq<char>, roster::PeerRow>,
    calling: Set<Seq<char>>,
    ev: roster::EventRow,
) -> bool {
    match ev {
        roster::EventRow::Seen { fingerprint, protocol, .. } => protocol == Protocol::Native && !(
        peers.dom().contains(fingerprint) && peers[fingerprint].state == PeerState::Reachable)
            && !calling.contains(fingerprint),
        _ => false,
    }
}

/// Whether a peer counts as online.
pub open spec fn is_online(s: PeerState) -> bool {
    s == PeerState::Discovered || s == PeerState::Reachable
}

/// The peers once those of a list have fallen silent.
pub open spec fn silenced(
    peers: Map<Seq<char>, roster::PeerRow>,
    list: Seq<Seq<char>>,
) -> Map<Seq<char>, roster::PeerRow> {
    Map::new(
        |fp: Seq<char>| peers.dom().contains(fp),
        |fp: Seq<char>|
            if list.contains(fp) && is_online(peers[fp].state) {
                roster::PeerRow { state: PeerState::Offline, ..peers[fp] }
            } else {
                peers[fp]
            },
    )
}

/// Which way something goes to a peer, or why it cannot go. Only addresses in
/// scope are gone to.
pub open spec fn route_of(
    scope: Seq<ScopeEntry>,
    peers: Map<Seq<char>, roster::PeerRow>,
    ipmsg: bool,
    fp: Seq<char>,
) -> Result<RouteRow, CoreError> {
    let addrs = reach::in_scope(scope, peers[fp].addrs);
    if !peers.dom().contains(fp) {
        Err(CoreError::UnknownPeer)
    } else if peers[fp].protocol == Protocol::Native {
        Ok(RouteRow::Native { addrs, port: peers[fp].port })
    } else if addrs.len() == 0 {
        Err(CoreError::UnknownPeer)
    } else if !ipmsg {
        Err(CoreError::IpmsgUnavailable)
    } else {
        Ok(RouteRow::Ipmsg { ip: addrs[0], port: peers[fp].port })
    }
}

/// What is done about an answered offer, or why nothing can be done.
pub open spec fn answer_of(
    scope: Seq<ScopeEntry>,
    offers: Map<Seq<char>, OfferRow>,
    peers: Map<Seq<char>, roster::PeerRow>,
    ipmsg: bool,
    xfer_id: Seq<char>,
    accept: bool,
    dir: Seq<char>,
    separator: char,
) -> Result<AnswerRow, CoreError> {
    if !offers.dom().contains(xfer_id) {
        Ok(AnswerRow::Native)
    } else if !accept {
        Ok(AnswerRow::Declined)
    } else {
        let o = offers[xfer_id];
        let addrs = reach::in_scope(scope, peers[o.peer_fp].addrs);
        if !peers.dom().contains(o.peer_fp) || addrs.len() == 0 {
            Err(CoreError::UnknownPeer)
        } else if !ipmsg {
            Err(CoreError::IpmsgUnavailable)
        } else {
            Ok(
                AnswerRow::Fetch {
                    ip: addrs[0],
                    port: peers[o.peer_fp].port,
                    packet_no: o.packet_no,
                    file_id: o.file_id,
                    size: o.size,
                    is_dir: o.is_dir,
                    save_path: filexfer::joined(dir, separator, o.name),
                },
            )
        }
    }
}

/// The state of a file whose offer was answered.
pub open spec fn answered_state(accept: bool) -> Seq<char> {
    if accept {
        "active"@
    } else {
        "rejected"@
    }
}

/// Everything together.
#[derive(Debug)]
pub struct Core {
    fingerprint: String,
    nickname: String,
    roster: Roster,
    registry: InterfaceRegistry,
    scope: NetScope,
    ipmsg_bcast: IpmsgBcastGuard,
    storage: Storage,
    history: HistoryStore,
    offers: Table<IpmsgOffer>,
    calling: Table<Calling>,
    last_seen: Table<SeenAt>,
    last_scan: Instant,
    last_iface_refresh: Instant,
    ipmsg: bool,
}

/// Everything together, by value.
#[verifier::ext_equal]
pub struct CoreRow {
    pub me: Seq<char>,
    pub nickname: Seq<char>,
    /// The peers by fingerprint.
    pub peers: Map<Seq<char>, roster::PeerRow>,
    /// The names of excluded interfaces, the interfaces in use, and their
    /// generation.
    pub excluded: Seq<Seq<char>>,
    pub ifaces: Seq<net_ifaces::IfaceRow>,
    pub generation: u64,
    /// Which peers are spoken to.
    pub scope: Seq<ScopeEntry>,
    pub bcast: BcastRow,
    /// What is kept.
    pub records: Map<Seq<char>, storage::ItemRow>,
    pub known: Map<Seq<char>, storage::KnownRow>,
    pub groups: Map<Seq<char>, storage::KeptRow>,
    /// Remembered addresses.
    pub history: Seq<IpAddr>,
    /// Open offers of the IP Messenger protocol.
    pub offers: Map<Seq<char>, OfferRow>,
    /// Who is being called back.
    pub calling: Set<Seq<char>>,
    /// When peers were last announced.
    pub seen: Map<Seq<char>, Instant>,
    pub last_scan: Instant,
    pub last_iface_refresh: Instant,
    /// Whether the IP Messenger protocol is spoken.
    pub ipmsg: bool,
}

impl View for Core {
    type V = CoreRow;

    closed spec fn view(&self) -> CoreRow {
        CoreRow {
            me: self.fingerprint@,
            nickname: self.nickname@,
            peers: self.roster.peers(),
            excluded: self.registry.excluded_names(),
            ifaces: self.registry.current_rows(),
            generation: self.registry.generation(),
            scope: self.scope@,
            bcast: self.ipmsg_bcast@,
            records: self.storage.records(),
            known: self.storage.known(),
            groups: self.storage.kept_groups(),
            history: self.history@,
            offers: offer_rows(self.offers@),
            calling: self.calling@.dom(),
            seen: times(self.last_seen@),
            last_scan: self.last_scan,
            last_iface_refresh: self.last_iface_refresh,
            ipmsg: self.ipmsg,
        }
    }
}

/// Whether the peer of an event that was let through is called back.
pub open spec fn calls_for(c: CoreRow, ev: roster::EventRow) -> bool {
    wants_call(roster::after_event(c.me, c.peers, ev), c.calling, ev)
}

/// Everything once an event that was let through has come.
pub open spec fn taken_in(
    c: CoreRow,
    ev: roster::EventRow,
    addr: Option<Seq<char>>,
    group: Option<Seq<char>>,
    now: Instant,
    now_ms: u64,
) -> CoreRow {
    CoreRow {
        peers: roster::after_event(c.me, c.peers, ev),
        known: known_after(c.known, ev, addr, group, now_ms),
        seen: seen_after(c.seen, ev, now),
        calling: if calls_for(c, ev) {
            c.calling.insert(roster::subject(ev))
        } else {
            c.calling
        },
        ..c
    }
}

/// Whether a target is that of an event that was let through.
pub open spec fn is_target_of(t: ProbeTarget, c: CoreRow, ev: roster::EventRow) -> bool {
    &&& t.fingerprint@ == roster::subject(ev)
    &&& t.addrs@ == ev->addrs
    &&& t.port == ev->port
    &&& net_ifaces::rows(t.entries@) == c.ifaces
}

/// Whether the peer of an event is called back.
pub open spec fn calls(c: CoreRow, ev: roster::EventRow) -> bool {
    match reach::admitted(c.scope, ev) {
        Some(e) => calls_for(c, e),
        None => false,
    }
}

/// Everything once an event of discovery has come.
pub open spec fn noted(
    c: CoreRow,
    ev: roster::EventRow,
    addr: Option<Seq<char>>,
    group: Option<Seq<char>>,
    now: Instant,
    now_ms: u64,
) -> CoreRow {
    match reach::admitted(c.scope, ev) {
        Some(e) => taken_in(c, e, addr, group, now, now_ms),
        None => c,
    }
}

/// Whether a target is that of an event.
pub open spec fn is_target(t: ProbeTarget, c: CoreRow, ev: roster::EventRow) -> bool {
    match reach::admitted(c.scope, ev) {
        Some(e) => is_target_of(t, c, e),
        None => false,
    }
}

/// Whether a list is given exactly if the peers have changed, and lists them.
pub open spec fn is_published(
    list: Option<Vec<Peer>>,
    before: Map<Seq<char>, roster::PeerRow>,
    after: Map<Seq<char>, roster::PeerRow>,
) -> bool {
    match list {
        Some(v) => before != after && roster::is_listing(after, roster::peer_rows(v@)),
        None => before == after,
    }
}

/// Everything once the peers of a list were found to be silent.
pub open spec fn scanned(c: CoreRow, list: Seq<Seq<char>>, now: Instant) -> CoreRow {
    CoreRow {
        peers: silenced(c.peers, list),
        seen: c.seen.remove_keys(list.to_set()),
        last_scan: now,
        ..c
    }
}

/// Everything once a call back has ended: where the peer answered, its addresses are
/// remembered.
pub open spec fn after_call(
    c: CoreRow,
    fp: Seq<char>,
    addrs: Seq<IpAddr>,
    rows: Seq<net_ifaces::IfaceRow>,
    ok: bool,
) -> CoreRow {
    CoreRow {
        calling: c.calling.remove(fp),
        history: if ok {
            all_recorded(c.history, remembered(addrs, rows))
        } else {
            c.history
        },
        ..c
    }
}

/// What a call back tells of the peer.
pub open spec fn call_outcome(fp: Seq<char>, ok: bool) -> roster::EventRow {
    if ok {
        roster::EventRow::Registered { fingerprint: fp }
    } else {
        roster::EventRow::Unreachable { fingerprint: fp }
    }
}

/// Everything once the interfaces in use were listed.
pub open spec fn with_listing(c: CoreRow, listed: Seq<net_ifaces::IfaceRow>) -> CoreRow {
    if listed == c.ifaces {
        c
    } else {
        CoreRow {
            ifaces: listed,
            generation: (c.generation + 1) as u64,
            bcast: after_snapshot(c.bcast, listed, (c.generation + 1) as u64),
            ..c
        }
    }
}

/// Everything once a text of ours was sent.
pub open spec fn with_sent_text(
    c: CoreRow,
    peer_fp: Seq<char>,
    body: Seq<char>,
    id: Seq<char>,
    ts_ms: u64,
) -> CoreRow {
    CoreRow {
        records: storage::added(
            c.records,
            storage::ItemRow::Text {
                id,
                peer_fp,
                direction: "out"@,
                body,
                ts_ms: as_signed(ts_ms),
                sender_fp: None,
            },
        ),
        ..c
    }
}

/// Everything once a file of ours was offered.
pub open spec fn with_sent_offer(
    c: CoreRow,
    peer_fp: Seq<char>,
    xfer_id: Seq<char>,
    name: Seq<char>,
    size: i64,
    now_ms: u64,
) -> CoreRow {
    CoreRow {
        records: storage::added(
            c.records,
            storage::ItemRow::File {
                xfer_id,
                peer_fp,
                direction: "out"@,
                name,
                size,
                is_dir: false,
                status: "active"@,
                path: None,
                ts_ms: as_signed(now_ms),
            },
        ),
        ..c
    }
}

/// Everything once an offer was answered.
pub open spec fn after_answer(
    c: CoreRow,
    xfer_id: Seq<char>,
    accept: bool,
    answered: bool,
) -> CoreRow {
    CoreRow {
        offers: c.offers.remove(xfer_id),
        records: if answered {
            storage::advanced(c.records, xfer_id, answered_state(accept), None)
        } else {
            c.records
        },
        ..c
    }
}

/// Everything once the settings were changed.
pub open spec fn with_settings(
    c: CoreRow,
    nickname: Option<Seq<char>>,
    host: Seq<char>,
    excluded: Seq<Seq<char>>,
    networks: Seq<Seq<char>>,
    ifaces: Seq<Interface>,
) -> CoreRow {
    CoreRow {
        nickname: nickname_in(nickname, host),
        excluded,
        scope: net_scope::lenient_entries(networks),
        ..with_listing(c, InterfaceRegistry::rows_from(ifaces, excluded))
    }
}

/// Whether it is time to look at the interfaces.
pub open spec fn refreshes(c: CoreRow, now: Instant) -> bool {
    now.elapsed_since(c.last_iface_refresh) >= IFACE_REFRESH_INTERVAL
}

/// Why the loop over events has woken.
#[derive(Debug)]
pub enum Wake {
    /// An event has come, with the text of its first address in scope and the
    /// work group.
    Event { ev: DiscoveryEvent, addr: Option<String>, group: Option<String> },
    /// None has come for a while.
    Timeout,
    /// None will come any more.
    Disconnected,
}

/// What the loop over events does.
#[derive(Debug)]
pub struct Step {
    /// The new list of peers, if it has changed.
    pub publish: Option<Vec<Peer>>,
    /// Whom to call back.
    pub probe: Option<ProbeTarget>,
    /// Whether to look at the interfaces.
    pub refresh: bool,
    /// Whether to end after that.
    pub stop: bool,
}

fn find_in(list: &Vec<Peer>, fp: &str) -> (r: Option<Peer>)
    ensures
        match r {
            Some(p) => p@.fingerprint == fp@ && roster::peer_rows(list@).contains(p@),
            None => forall|i: int|
                0 <= i < list@.len() ==> (#[trigger] list@[i])@.fingerprint != fp@,
        },
{
    let mut i: usize = 0;
    while i < list.len()
        invariant
            i <= list.len(),
            forall|j: int| 0 <= j < i ==> (#[trigger] list@[j])@.fingerprint != fp@,
        decreases list.len() - i,
    {
        if same_text(list[i].fingerprint.as_str(), fp) {
            let p = list[i].copied();
            assert(roster::peer_rows(list@)[i as int] == p@);
            return Some(p);
        }
        i = i + 1;
    }
    None
}

impl Core {
    /// The list of peers is in order, and is ours.
    pub closed spec fn well_formed(&self) -> bool {
        self.roster.well_formed() && self.roster.me() == self.fingerprint@
    }

    /// Starts. `host` is the host name, `seeds` are the peers known from
    /// earlier, `ifaces` what the system lists, and `ipmsg_started` tells
    /// whether the port of the IP Messenger protocol could be had.
    pub fn start(
        cfg: &CoreConfig,
        s: &Settings,
        host: &str,
        fingerprint: &str,
        storage: Storage,
        history: HistoryStore,
        seeds: Vec<Peer>,
        ifaces: &[Interface],
        ipmsg_started: bool,
        now: Instant,
    ) -> (r: Self)
        ensures
            r.well_formed(),
            ({
                let rows = InterfaceRegistry::rows_from(
                    ifaces@,
                    text::texts(s.excluded_interfaces@),
                );
                r@ == (CoreRow {
                    me: fingerprint@,
                    nickname: starting_nickname(
                        text::opt_text(cfg.nickname),
                        text::opt_text(s.nickname),
                        host@,
                    ),
                    peers: roster::seeded(
                        fingerprint@,
                        Map::empty(),
                        roster::peer_rows(seeds@),
                    ),
                    excluded: text::texts(s.excluded_interfaces@),
                    ifaces: rows,
                    generation: 1,
                    scope: net_scope::lenient_entries(text::texts(s.allowed_networks@)),
                    bcast: BcastRow { targets: net_ifaces::broadcasts_of(rows), generation: 1 },
                    records: storage.records(),
                    known: storage.known(),
                    groups: storage.kept_groups(),
                    history: history@,
                    offers: Map::empty(),
                    calling: Set::empty(),
                    seen: Map::empty(),
                    last_scan: now,
                    last_iface_refresh: now,
                    ipmsg: s.ipmsg_enabled && ipmsg_started,
                })
            }),
    {
        let nickname = first_nickname(cfg, s, host);
        let registry = InterfaceRegistry::new(copy_texts(&s.excluded_interfaces), ifaces);
        let snapshot = registry.snapshot();
        let targets = broadcast_targets(snapshot.entries.as_slice());
        let ipmsg_bcast = IpmsgBcastGuard::new(targets, snapshot.generation);
        let (scope, _) = NetScope::parse_lenient(s.allowed_networks.as_slice());
        let mut roster = Roster::new(owned(fingerprint));
        roster.seed_offline(seeds);
        let r = Core {
            fingerprint: owned(fingerprint),
            nickname,
            roster,
            registry,
            scope,
            ipmsg_bcast,
            storage,
            history,
            offers: Table::new(),
            calling: Table::new(),
            last_seen: Table::new(),
            last_scan: now,
            last_iface_refresh: now,
            ipmsg: s.ipmsg_enabled && ipmsg_started,
        };
        proof {
            assert(r@.offers =~= Map::<Seq<char>, OfferRow>::empty());
            assert(r@.calling =~= Set::<Seq<char>>::empty());
            assert(r@.seen =~= Map::<Seq<char>, Instant>::empty());
        }
        r
    }

    /// The own fingerprint.
    pub fn fingerprint(&self) -> (r: &str)
        ensures
            r@ == self@.me,
    {
        self.fingerprint.as_str()
    }

    /// The nickname.
    pub fn nickname(&self) -> (r: String)
        ensures
            r@ == self@.nickname,
    {
        owned(self.nickname.as_str())
    }

    /// Whether the IP Messenger protocol is spoken.
    pub fn ipmsg_available(&self) -> (r: bool)
        ensures
            r == self@.ipmsg,
    {
        self.ipmsg
    }

    /// The peers in order.
    pub fn roster_snapshot(&self) -> (r: Vec<Peer>)
        requires
            self.well_formed(),
        ensures
            roster::is_listing(self@.peers, roster::peer_rows(r@)),
    {
        self.roster.snapshot()
    }

    /// What is kept.
    pub fn storage(&self) -> (r: &Storage)
        ensures
            r.records() == self@.records,
            r.known() == self@.known,
            r.kept_groups() == self@.groups,
    {
        &self.storage
    }

    /// The remembered addresses, the latest first.
    pub fn history_ips(&self) -> (r: Vec<IpAddr>)
        ensures
            r@ == self@.history,
    {
        self.history.ips()
    }

    /// The interfaces in use.
    pub fn interfaces(&self) -> (r: IfaceSnapshot)
        ensures
            r.generation == self@.generation,
            net_ifaces::rows(r.entries@) == self@.ifaces,
    {
        self.registry.snapshot()
    }

    /// All interfaces, excluded or not.
    pub fn list_interfaces(&self, ifaces: &[Interface]) -> (r: Vec<IfaceView>)
        ensures
            r@.map_values(|v: IfaceView| v@) == crate::order::sorted(
                net_ifaces::shown_rows(ifaces@, self@.excluded),
                |a: net_ifaces::ShownRow, b: net_ifaces::ShownRow| net_ifaces::shown_before(a, b),
            ),
    {
        self.registry.list_all(ifaces)
    }

    /// Which peers are spoken to.
    pub fn scope(&self) -> (r: NetScope)
        ensures
            r@ == self@.scope,
    {
        self.scope.clone()
    }

    /// Whether a peer at an address is spoken to.
    pub fn allows(&self, ip: IpAddr) -> (r: bool)
        ensures
            r == net_scope::ip_allowed(self@.scope, ip),
    {
        self.scope.allows(ip)
    }

    /// What is left of an event: of a peer that was seen, the addresses in scope.
    pub fn within_scope(&self, ev: DiscoveryEvent) -> (r: Option<DiscoveryEvent>)
        ensures
            crate::discovery::mdns::event_row(r) == reach::admitted(self@.scope, ev@),
    {
        let_through(&self.scope, ev)
    }

    /// The remembered addresses in scope, the latest first. They are told of the
    /// program at the start.
    pub fn wake_ips(&self) -> (r: Vec<IpAddr>)
        ensures
            r@ == reach::in_scope(self@.scope, self@.history),
    {
        allowed_addrs(&self.scope, &self.history.ips())
    }

    /// The names of the interfaces that mDNS stays off.
    pub fn mdns_disabled(&self) -> (r: Vec<String>)
        ensures
            text::texts(r@) == self@.excluded + reach::uncovered(self@.ifaces, self@.scope),
    {
        let snapshot = self.registry.snapshot();
        desired_mdns_disabled(
            snapshot.entries.as_slice(),
            &self.registry.excluded(),
            &self.scope,
        )
    }

    /// Where the IP Messenger protocol announces to: the broadcast addresses,
    /// and where the scope restricts, what is told in its place.
    pub fn ipmsg_targets(&self) -> (r: Vec<Ipv4Addr>)
        ensures
            self@.scope.len() == 0 ==> r@ == self@.bcast.targets,
            self@.scope.len() > 0 ==> reach::are_told(r@, self@.scope, self@.ifaces),
    {
        if self.scope.is_unrestricted() {
            self.ipmsg_bcast.targets()
        } else {
            let snapshot = self.registry.snapshot();
            told_addrs(&self.scope, snapshot.entries.as_slice())
        }
    }

    /// Takes in an event of discovery. `addr` is the text of the first address
    /// in scope that it brings, and `group` the work group. What was found outside
    /// of the scope is ignored.
    pub fn note(
        &mut self,
        ev: DiscoveryEvent,
        addr: Option<String>,
        group: Option<String>,
        now: Instant,
        now_ms: u64,
    ) -> (r: Noted)
        requires
            old(self).well_formed(),
        ensures
            final(self).well_formed(),
            ({
                let after = noted(
                    old(self)@,
                    ev@,
                    text::opt_text(addr),
                    text::opt_text(group),
                    now,
                    now_ms,
                );
                &&& final(self)@ == after
                &&& is_published(r.publish, old(self)@.peers, after.peers)
                &&& r.probe is Some <==> calls(old(self)@, ev@)
                &&& r.probe matches Some(t) ==> is_target(t, old(self)@, ev@)
            }),
    {
        match let_through(&self.scope, ev) {
            Some(ev) => self.take_in(ev, addr, group, now, now_ms),
            None => Noted { publish: None, probe: None },
        }
    }

    /// Takes in an event that was let through.
    fn take_in(
        &mut self,
        ev: DiscoveryEvent,
        addr: Option<String>,
        group: Option<String>,
        now: Instant,
        now_ms: u64,
    ) -> (r: Noted)
        requires
            old(self).well_formed(),
        ensures
            final(self).well_formed(),
            ({
                let after = taken_in(
                    old(self)@,
                    ev@,
                    text::opt_text(addr),
                    text::opt_text(group),
                    now,
                    now_ms,
                );
                &&& final(self)@ == after
                &&& is_published(r.publish, old(self)@.peers, after.peers)
                &&& r.probe is Some <==> calls_for(old(self)@, ev@)
                &&& r.probe matches Some(t) ==> is_target_of(t, old(self)@, ev@)
            }),
    {
        let ghost before = self@;
        let ghost row = ev@;
        let mut target: Option<ProbeTarget> = None;
        match &ev {
            DiscoveryEvent::Seen { fingerprint, nickname, addrs, port, protocol } => {
                let seen = SeenAt { fingerprint: owned(fingerprint.as_str()), at: now };
                let ghost had = self.last_seen@;
                self.last_seen.insert(seen, fingerprint.as_str());
                assert(times(self.last_seen@) =~= times(had).insert(fingerprint@, now));
                let protocol_name = match protocol {
                    Protocol::Native => owned("native"),
                    Protocol::Ipmsg => owned("ipmsg"),
                };
                let known = KnownPeer {
                    fingerprint: owned(fingerprint.as_str()),
                    nickname: owned(nickname.as_str()),
                    protocol: protocol_name,
                    last_addr: addr,
                    last_seen_ms: to_signed(now_ms),
                    group,
                };
                self.storage.upsert_peer(known);
                match protocol {
                    Protocol::Native => {
                        let snapshot = self.registry.snapshot();
                        target = Some(
                            ProbeTarget {
                                fingerprint: owned(fingerprint.as_str()),
                                addrs: copy_addrs(addrs),
                                port: *port,
                                entries: snapshot.entries,
                            },
                        );
                    },
                    Protocol::Ipmsg => {},
                }
            },
            _ => {},
        }
        let changed = self.roster.apply(ev);
        let snapshot = self.roster.snapshot();
        let ghost peers = self.roster.peers();
        let mut probe: Option<ProbeTarget> = None;
        match target {
            Some(t) => {
                let reachable = match find_in(&snapshot, t.fingerprint.as_str()) {
                    Some(p) => {
                        proof {
                            let list = roster::peer_rows(snapshot@);
                            let i = choose|i: int| 0 <= i < list.len() && list[i] == p@;
                            assert(peers[list[i].fingerprint] == list[i]);
                        }
                        match p.state {
                            PeerState::Reachable => true,
                            _ => false,
                        }
                    },
                    None => {
                        proof {
                            let list = roster::peer_rows(snapshot@);
                            if peers.dom().contains(t.fingerprint@) {
                                let i = choose|i: int|
                                    0 <= i < list.len() && (#[trigger] list[i]).fingerprint
                                        == t.fingerprint@;
                                assert(snapshot@[i]@.fingerprint == t.fingerprint@);
                            }
                        }
                        false
                    },
                };
                if !reachable && !self.calling.contains(t.fingerprint.as_str()) {
                    let ghost had = self.calling@;
                    let c = Calling { fingerprint: owned(t.fingerprint.as_str()) };
                    self.calling.insert(c, t.fingerprint.as_str());
                    assert(self.calling@.dom() =~= had.dom().insert(t.fingerprint@));
                    probe = Some(t);
                }
            },
            None => {},
        }
        let publish = if changed {
            Some(snapshot)
        } else {
            None
        };
        proof {
            let call = wants_call(peers, before.calling, row);
            assert(probe is Some <==> call);
            assert(self@ =~= taken_in(
                before,
                row,
                text::opt_text(addr),
                text::opt_text(group),
                now,
                now_ms,
            ));
        }
        Noted { publish, probe }
    }

    /// Takes in whether a peer could be called back. Its addresses are
    /// remembered if so.
    pub fn probe_done(&mut self, target: &ProbeTarget, ok: bool) -> (r: DiscoveryEvent)
        ensures
            final(self)@ == after_call(
                old(self)@,
                target.fingerprint@,
                target.addrs@,
                net_ifaces::rows(target.entries@),
                ok,
            ),
            old(self).well_formed() ==> final(self).well_formed(),
            r@ == call_outcome(target.fingerprint@, ok),
    {
        let ghost before = self@;
        let ghost had = self.calling@;
        let _ = self.calling.remove(target.fingerprint.as_str());
        assert(self.calling@.dom() =~= had.dom().remove(target.fingerprint@));
        if ok {
            let ips = addrs_to_record(&target.addrs, target.entries.as_slice());
            record_all(&mut self.history, &ips);
            DiscoveryEvent::Registered { fingerprint: owned(target.fingerprint.as_str()) }
        } else {
            DiscoveryEvent::Unreachable { fingerprint: owned(target.fingerprint.as_str()) }
        }
    }

    /// Whether it is time to look at the interfaces; notes that they are looked
    /// at.
    pub fn refresh_due(&mut self, now: Instant) -> (r: bool)
        ensures
            r == refreshes(old(self)@, now),
            final(self)@ == (CoreRow {
                last_iface_refresh: if r {
                    now
                } else {
                    old(self)@.last_iface_refresh
                },
                ..old(self)@
            }),
            old(self).well_formed() ==> final(self).well_formed(),
    {
        if now.since(self.last_iface_refresh) >= IFACE_REFRESH_INTERVAL {
            self.last_iface_refresh = now;
            true
        } else {
            false
        }
    }

    /// Takes over what the system lists; gives the interfaces in use if they
    /// have changed.
    pub fn refresh(&mut self, ifaces: &[Interface]) -> (r: Option<IfaceSnapshot>)
        requires
            old(self)@.generation < u64::MAX,
        ensures
            ({
                let listed = InterfaceRegistry::rows_from(ifaces@, old(self)@.excluded);
                &&& r is Some <==> listed != old(self)@.ifaces
                &&& r matches Some(s) ==> net_ifaces::rows(s.entries@) == listed && s.generation
                    == old(self)@.generation + 1
                &&& final(self)@ == with_listing(old(self)@, listed)
            }),
            old(self).well_formed() ==> final(self).well_formed(),
    {
        let ghost before = self@;
        let r = self.registry.refresh(ifaces);
        match &r {
            Some(s) => {
                self.ipmsg_bcast.apply_if_newer(s);
            },
            None => {},
        }
        r
    }

    /// Looks for peers that have fallen silent, if it is time to; gives the new
    /// list of peers if it has changed.
    pub fn scan(&mut self, now: Instant) -> (r: Option<Vec<Peer>>)
        requires
            old(self).well_formed(),
        ensures
            final(self).well_formed(),
            now.elapsed_since(old(self)@.last_scan) < ROSTER_TICK ==> r is None && final(self)@
                == old(self)@,
            now.elapsed_since(old(self)@.last_scan) >= ROSTER_TICK ==> exists|
                list: Seq<Seq<char>>,
            |
                {
                    &&& #[trigger] is_stale_list(old(self)@.seen, now, PEER_TIMEOUT, list)
                    &&& final(self)@ == scanned(old(self)@, list, now)
                },
            is_published(r, old(self)@.peers, final(self)@.peers),
    {
        if now.since(self.last_scan) < ROSTER_TICK {
            return None;
        }
        let ghost before = self@;
        self.last_scan = now;
        let stale = stale_fingerprints(&self.last_seen, now, PEER_TIMEOUT);
        let ghost list = text::texts(stale@);
        let ghost peers = self.roster.peers();
        let ghost seen = times(self.last_seen@);
        let mut any = false;
        let mut i: usize = 0;
        proof {
            assert(list.take(0) =~= Seq::<Seq<char>>::empty());
            assert(silenced(peers, list.take(0)) =~= peers);
            assert(seen.remove_keys(list.take(0).to_set()) =~= seen);
        }
        while i < stale.len()
            invariant
                i <= stale.len(),
                list == text::texts(stale@),
                self.roster.well_formed(),
                self.roster.me() == self.fingerprint@,
                self.roster.peers() == silenced(peers, list.take(i as int)),
                times(self.last_seen@) == seen.remove_keys(list.take(i as int).to_set()),
                any == (silenced(peers, list.take(i as int)) != peers),
                self@ == (CoreRow {
                    peers: self.roster.peers(),
                    seen: times(self.last_seen@),
                    last_scan: now,
                    ..before
                }),
                list.no_duplicates(),
                forall|fp: Seq<char>| #[trigger] peers.dom().contains(fp) ==> peers[fp].fingerprint == fp,
            decreases stale.len() - i,
        {
            let fp: &str = stale[i].as_str();
            let ghost s = list.take(i as int);
            let ghost w = list.take(i + 1);
            let ghost mid = self.roster.peers();
            let ghost had = self.last_seen@;
            proof {
                assert(w =~= s.push(fp@));
                assert(!s.contains(fp@)) by {
                    if s.contains(fp@) {
                        let k = choose|k: int| 0 <= k < s.len() && s[k] == fp@;
                        assert(list[k] == list[i as int]);
                    }
                }
                assert forall|x: Seq<char>| #[trigger] w.contains(x) == (s.contains(x) || x
                    == fp@) by {
                    if s.contains(x) {
                        let k = choose|k: int| 0 <= k < s.len() && s[k] == x;
                        assert(w[k] == x);
                    }
                    if x == fp@ {
                        assert(w[i as int] == x);
                    }
                    if w.contains(x) {
                        let k = choose|k: int| 0 <= k < w.len() && w[k] == x;
                        if k < i {
                            assert(s[k] == x);
                        }
                    }
                }
                lemma_lost_is_silenced(self.roster.me(), peers, s, w, fp@);
            }
            if self.roster.apply(DiscoveryEvent::Lost { fingerprint: owned(fp) }) {
                any = true;
            }
            let _ = self.last_seen.remove(fp);
            proof {
                assert(times(self.last_seen@) =~= times(had).remove(fp@));
                assert(seen.remove_keys(w.to_set()) =~= seen.remove_keys(s.to_set()).remove(fp@));
                assert(self@ =~= CoreRow {
                    peers: self.roster.peers(),
                    seen: times(self.last_seen@),
                    last_scan: now,
                    ..before
                });
                lemma_silenced_grows(peers, s, w, fp@);
            }
            i = i + 1;
        }
        assert(list.take(i as int) =~= list);
        assert(is_stale_list(before.seen, now, PEER_TIMEOUT, list));
        if any {
            Some(self.roster.snapshot())
        } else {
            None
        }
    }

    /// One turn of the loop over events. An event that has come is taken in even
    /// where stopping is asked for. The interfaces are looked at when it is time
    /// to, also while events keep coming.
    pub fn wake(&mut self, w: Wake, stop: bool, now: Instant, now_ms: u64) -> (r: Step)
        requires
            old(self).well_formed(),
        ensures
            final(self).well_formed(),
            match w {
                Wake::Disconnected => {
                    &&& final(self)@ == old(self)@
                    &&& r.publish is None && r.probe is None && !r.refresh && r.stop
                },
                Wake::Event { ev, addr, group } => {
                    let after = noted(
                        old(self)@,
                        ev@,
                        text::opt_text(addr),
                        text::opt_text(group),
                        now,
                        now_ms,
                    );
                    &&& is_published(r.publish, old(self)@.peers, after.peers)
                    &&& r.probe is Some <==> calls(old(self)@, ev@)
                    &&& r.probe matches Some(t) ==> is_target(t, old(self)@, ev@)
                    &&& r.refresh == (!stop && refreshes(old(self)@, now))
                    &&& r.stop == stop
                    &&& final(self)@ == (CoreRow {
                        last_iface_refresh: if r.refresh {
                            now
                        } else {
                            after.last_iface_refresh
                        },
                        ..after
                    })
                },
                Wake::Timeout => {
                    &&& r.probe is None
                    &&& r.stop == stop
                    &&& r.refresh == (!stop && refreshes(old(self)@, now))
                    &&& is_published(r.publish, old(self)@.peers, final(self)@.peers)
                    &&& stop ==> final(self)@ == old(self)@
                    &&& !stop ==> {
                        let looked = CoreRow {
                            last_iface_refresh: if r.refresh {
                                now
                            } else {
                                old(self)@.last_iface_refresh
                            },
                            ..old(self)@
                        };
                        if now.elapsed_since(old(self)@.last_scan) < ROSTER_TICK {
                            final(self)@ == looked
                        } else {
                            exists|list: Seq<Seq<char>>|
                                #[trigger] is_stale_list(
                                    old(self)@.seen,
                                    now,
                                    PEER_TIMEOUT,
                                    list,
                                ) && final(self)@ == scanned(looked, list, now)
                        }
                    }
                },
            },
    {
        match w {
            Wake::Disconnected => Step { publish: None, probe: None, refresh: false, stop: true },
            Wake::Event { ev, addr, group } => {
                let n = self.note(ev, addr, group, now, now_ms);
                let refresh = !stop && self.refresh_due(now);
                Step { publish: n.publish, probe: n.probe, refresh, stop }
            },
            Wake::Timeout => {
                if stop {
                    return Step { publish: None, probe: None, refresh: false, stop: true };
                }
                let refresh = self.refresh_due(now);
                let publish = self.scan(now);
                Step { publish, probe: None, refresh, stop: false }
            },
        }
    }

    /// The record of a peer.
    pub fn find_peer(&self, peer_fp: &str) -> (r: Result<Peer, CoreError>)
        requires
            self.well_formed(),
        ensures
            r is Ok <==> self@.peers.dom().contains(peer_fp@),
            r matches Ok(p) ==> p@ == self@.peers[peer_fp@],
            r matches Err(e) ==> e == CoreError::UnknownPeer,
    {
        let snapshot = self.roster.snapshot();
        let ghost peers = self.roster.peers();
        match find_in(&snapshot, peer_fp) {
            Some(p) => {
                proof {
                    let list = roster::peer_rows(snapshot@);
                    let i = choose|i: int| 0 <= i < list.len() && list[i] == p@;
                    assert(peers[list[i].fingerprint] == list[i]);
                }
                Ok(p)
            },
            None => {
                proof {
                    let list = roster::peer_rows(snapshot@);
                    if peers.dom().contains(peer_fp@) {
                        let i = choose|i: int|
                            0 <= i < list.len() && (#[trigger] list[i]).fingerprint == peer_fp@;
                        assert(snapshot@[i]@.fingerprint == peer_fp@);
                    }
                }
                Err(CoreError::UnknownPeer)
            },
        }
    }

    /// Which way a message or a file goes to a peer.
    pub fn route(&self, peer_fp: &str) -> (r: Result<Route, CoreError>)
        requires
            self.well_formed(),
        ensures
            match r {
                Ok(route) => route_of(self@.scope, self@.peers, self@.ipmsg, peer_fp@) == Ok::<
                    RouteRow,
                    CoreError,
                >(route@),
                Err(e) => route_of(self@.scope, self@.peers, self@.ipmsg, peer_fp@) == Err::<
                    RouteRow,
                    CoreError,
                >(e),
            },
    {
        let p = match self.find_peer(peer_fp) {
            Ok(p) => p,
            Err(_) => {
                return Err(CoreError::UnknownPeer);
            },
        };
        let addrs = allowed_addrs(&self.scope, &p.addrs);
        match p.protocol {
            Protocol::Native => Ok(Route::Native { addrs, port: p.port }),
            Protocol::Ipmsg => {
                if addrs.len() == 0 {
                    return Err(CoreError::UnknownPeer);
                }
                if !self.ipmsg {
                    return Err(CoreError::IpmsgUnavailable);
                }
                Ok(Route::Ipmsg { ip: addrs[0], port: p.port })
            },
        }
    }

    /// Keeps a message that was sent.
    pub fn text_sent(&mut self, peer_fp: &str, body: &str, sent: &SentText)
        ensures
            final(self)@ == with_sent_text(
                old(self)@,
                peer_fp@,
                body@,
                sent.id@,
                sent.ts_ms,
            ),
            old(self).well_formed() ==> final(self).well_formed(),
    {
        self.storage.insert_message(
            sent.id.as_str(),
            peer_fp,
            "out",
            body,
            to_signed(sent.ts_ms),
            None,
        );
    }

    /// Forgets the records of a conversation, or all.
    pub fn clear_history(&mut self, peer_fp: Option<&str>)
        ensures
            final(self)@ == (CoreRow {
                records: storage::cleared(old(self)@.records, storage::opt_str(peer_fp)),
                ..old(self)@
            }),
            old(self).well_formed() ==> final(self).well_formed(),
    {
        self.storage.clear_history(peer_fp);
    }

    /// Keeps a file that was offered.
    pub fn file_offered(&mut self, peer_fp: &str, xfer_id: &str, name: &str, size: i64, now_ms: u64)
        ensures
            final(self)@ == with_sent_offer(
                old(self)@,
                peer_fp@,
                xfer_id@,
                name@,
                size,
                now_ms,
            ),
            old(self).well_formed() ==> final(self).well_formed(),
    {
        self.storage.insert_transfer(
            xfer_id,
            peer_fp,
            "out",
            name,
            size,
            false,
            "active",
            to_signed(now_ms),
        );
    }

    /// Answers an offer. One of the IP Messenger protocol is closed by that,
    /// also where it cannot be fetched; any other is left to the native
    /// transport. The file's state is kept unless it cannot be fetched.
    /// `separator` is the one that the platform writes in paths.
    pub fn respond_file(
        &mut self,
        xfer_id: &str,
        accept: bool,
        download_dir: &str,
        separator: char,
    ) -> (r: Result<Answer, CoreError>)
        requires
            old(self).well_formed(),
        ensures
            final(self).well_formed(),
            ({
                let a = answer_of(
                    old(self)@.scope,
                    old(self)@.offers,
                    old(self)@.peers,
                    old(self)@.ipmsg,
                    xfer_id@,
                    accept,
                    download_dir@,
                    separator,
                );
                &&& match r {
                    Ok(answer) => a == Ok::<AnswerRow, CoreError>(answer@),
                    Err(e) => a == Err::<AnswerRow, CoreError>(e),
                }
                &&& final(self)@ == after_answer(old(self)@, xfer_id@, accept, a is Ok)
            }),
    {
        let ghost before = self@;
        let ghost had = self.offers@;
        let taken = self.offers.remove(xfer_id);
        assert(offer_rows(self.offers@) =~= offer_rows(had).remove(xfer_id@));
        let answer = match taken {
            None => Answer::Native,
            Some(o) => {
                assert(o@ == before.offers[xfer_id@]);
                if !accept {
                    Answer::Declined
                } else {
                    let p = match self.find_peer(o.peer_fp.as_str()) {
                        Ok(p) => p,
                        Err(_) => {
                            return Err(CoreError::UnknownPeer);
                        },
                    };
                    let addrs = allowed_addrs(&self.scope, &p.addrs);
                    if addrs.len() == 0 {
                        return Err(CoreError::UnknownPeer);
                    }
                    let save_path = join_path(download_dir, separator, o.name.as_str());
                    if !self.ipmsg {
                        return Err(CoreError::IpmsgUnavailable);
                    }
                    Answer::Fetch {
                        ip: addrs[0],
                        port: p.port,
                        packet_no: o.packet_no,
                        file_id: o.file_id,
                        size: o.size,
                        is_dir: o.is_dir,
                        save_path,
                    }
                }
            },
        };
        if accept {
            self.storage.update_transfer(xfer_id, "active", None);
        } else {
            self.storage.update_transfer(xfer_id, "rejected", None);
        }
        Ok(answer)
    }

    /// Takes in an event of the IP Messenger protocol.
    pub fn ipmsg_event(&mut self, ev: IpmsgEvent) -> (r: Forwarded)
        ensures
            crate::discovery::mdns::event_row(r.discovery) == told(ev@),
            exists|ids: Seq<Seq<char>>, now: u64|
                {
                    &&& event_rows(r.events@) == #[trigger] reported(ev@, ids, now)
                    &&& final(self)@ == (CoreRow {
                        offers: with_offers(old(self)@.offers, new_offers(ev@, ids)),
                        ..old(self)@
                    })
                    &&& ids.len() == ids_needed(ev@)
                    &&& forall|i: int| 0 <= i < ids.len() ==> proto::is_random_id(#[trigger] ids[i])
                },
            old(self).well_formed() ==> final(self).well_formed(),
    {
        forward_ipmsg_event(&mut self.offers, ev)
    }

    /// Keeps an event of the transport, which is handed on after that.
    pub fn pump(&mut self, ev: TransportEvent, now_ms: u64) -> (r: TransportEvent)
        ensures
            r == ev,
            final(self)@ == (CoreRow {
                records: persisted(old(self)@.records, ev@, now_ms),
                ..old(self)@
            }),
            old(self).well_formed() ==> final(self).well_formed(),
    {
        persist_event(&mut self.storage, &ev, now_ms);
        ev
    }

    /// Takes over settings. `host` is the host name, `ifaces` what the system
    /// lists.
    pub fn apply_settings(&mut self, s: &Settings, host: &str, ifaces: &[Interface]) -> (r:
        SettingsEffect)
        requires
            old(self)@.generation < u64::MAX,
        ensures
            ({
                let names = text::texts(s.excluded_interfaces@);
                let nick = nickname_in(text::opt_text(s.nickname), host@);
                &&& r.were_excluded is Some <==> names != old(self)@.excluded
                &&& r.were_excluded matches Some(prev) ==> text::texts(prev@)
                    == old(self)@.excluded
                &&& r.rename is Some <==> nick != old(self)@.nickname
                &&& r.rename matches Some(n) ==> n@ == nick
                &&& final(self)@ == with_settings(
                    old(self)@,
                    text::opt_text(s.nickname),
                    host@,
                    names,
                    text::texts(s.allowed_networks@),
                    ifaces@,
                )
            }),
            old(self).well_formed() ==> final(self).well_formed(),
    {
        let were_excluded = apply_excluded_interfaces(
            &mut self.registry,
            &mut self.ipmsg_bcast,
            &s.excluded_interfaces,
            ifaces,
        );
        let (scope, _) = NetScope::parse_lenient(s.allowed_networks.as_slice());
        self.scope = scope;
        let nick = nickname_on(s, host);
        let rename = if same_text(nick.as_str(), self.nickname.as_str()) {
            None
        } else {
            self.nickname = owned(nick.as_str());
            Some(nick)
        };
        SettingsEffect { were_excluded, rename }
    }
}

proof fn lemma_lost_is_silenced(
    me: Seq<char>,
    peers: Map<Seq<char>, roster::PeerRow>,
    s: Seq<Seq<char>>,
    w: Seq<Seq<char>>,
    fp: Seq<char>,
)
    requires
        !s.contains(fp),
        forall|x: Seq<char>| #[trigger] w.contains(x) == (s.contains(x) || x == fp),
    ensures
        roster::after_event(
            me,
            silenced(peers, s),
            roster::EventRow::Lost { fingerprint: fp },
        ) == silenced(peers, w),
{
    let mid = silenced(peers, s);
    let end = silenced(peers, w);
    let after = roster::after_event(me, mid, roster::EventRow::Lost { fingerprint: fp });
    assert(w.contains(fp));
    assert forall|x: Seq<char>| peers.dom().contains(x) && x != fp implies #[trigger] mid[x]
        == end[x] by {
        assert(w.contains(x) == s.contains(x));
    }
    assert(after =~= end);
}

proof fn lemma_silenced_grows(
    peers: Map<Seq<char>, roster::PeerRow>,
    s: Seq<Seq<char>>,
    w: Seq<Seq<char>>,
    fp: Seq<char>,
)
    requires
        !s.contains(fp),
        forall|x: Seq<char>| #[trigger] w.contains(x) == (s.contains(x) || x == fp),
    ensures
        silenced(peers, w) == peers ==> silenced(peers, s) == peers,
        silenced(peers, s) != peers ==> silenced(peers, w) != peers,
        (silenced(peers, w) != silenced(peers, s)) || silenced(peers, s) != peers
            <==> silenced(peers, w) != peers,
{
    let a = silenced(peers, s);
    let b = silenced(peers, w);
    assert(w.contains(fp));
    if b == peers {
        assert(a =~= peers) by {
            assert forall|x: Seq<char>| peers.dom().contains(x) implies #[trigger] a[x]
                == peers[x] by {
                assert(w.contains(x) == (s.contains(x) || x == fp));
                assert(b[x] == peers[x]);
            }
        }
    }
}

// ---------------------------------------------------------------------------
// Laws
// ---------------------------------------------------------------------------

/// A peer that was found to be silent is not found so again until it has been
/// announced anew.
pub proof fn law_silence_is_found_once(
    c: CoreRow,
    list: Seq<Seq<char>>,
    now: Instant,
    later: Instant,
    fp: Seq<char>,
)
    requires
        is_stale_list(c.seen, now, PEER_TIMEOUT, list),
        is_stale(c.seen, fp, now, PEER_TIMEOUT),
    ensures
        !is_stale(scanned(c, list, now).seen, fp, later, PEER_TIMEOUT),
{
    assert(list.contains(fp));
    assert(list.to_set().contains(fp));
}

/// A peer that was announced does not count as silent until the timeout is over.
pub proof fn law_announced_peer_is_not_silent(
    seen: Map<Seq<char>, Instant>,
    ev: roster::EventRow,
    at: Instant,
    now: Instant,
)
    requires
        ev is Seen,
        now.nanos <= at.nanos + PEER_TIMEOUT,
    ensures
        !is_stale(seen_after(seen, ev, at), roster::subject(ev), now, PEER_TIMEOUT),
{
}

/// A scan marks as offline exactly the silent peers that counted as online, and
/// touches nothing else of any peer.
pub proof fn law_scan_marks_silent_peers(
    peers: Map<Seq<char>, roster::PeerRow>,
    list: Seq<Seq<char>>,
    fp: Seq<char>,
)
    requires
        peers.dom().contains(fp),
    ensures
        silenced(peers, list).dom() == peers.dom(),
        silenced(peers, list)[fp].state == (if list.contains(fp) && is_online(peers[fp].state) {
            PeerState::Offline
        } else {
            peers[fp].state
        }),
        (roster::PeerRow { state: peers[fp].state, ..silenced(peers, list)[fp] }) == peers[fp],
{
    assert(silenced(peers, list).dom() =~= peers.dom());
}

/// There is never more than one call to a peer under way, and a peer that was
/// reached is not called.
pub proof fn law_one_call_at_a_time(c: CoreRow, ev: roster::EventRow)
    ensures
        calls(c, ev) ==> !c.calling.contains(roster::subject(ev)),
        c.peers.dom().contains(roster::subject(ev)) && c.peers[roster::subject(ev)].state
            == PeerState::Reachable && ev is Seen && roster::subject(ev) != c.me ==> !calls(c, ev),
{
    reach::law_admitted_is_in_scope(c.scope, ev);
}

/// A peer that was seen outside of the scope alone leaves everything as it is,
/// and is not called.
pub proof fn law_outside_leaves_no_trace(
    c: CoreRow,
    ev: roster::EventRow,
    addr: Option<Seq<char>>,
    group: Option<Seq<char>>,
    now: Instant,
    now_ms: u64,
)
    requires
        ev is Seen,
        c.scope.len() > 0,
        forall|i: int|
            0 <= i < ev->addrs.len() ==> !net_scope::ip_allowed(c.scope, #[trigger] ev->addrs[i]),
    ensures
        noted(c, ev, addr, group, now, now_ms) == c,
        !calls(c, ev),
{
    reach::law_outside_is_ignored(c.scope, ev);
}

/// Whatever goes to a peer goes to addresses in scope.
pub proof fn law_routes_stay_in_scope(
    scope: Seq<ScopeEntry>,
    peers: Map<Seq<char>, roster::PeerRow>,
    ipmsg: bool,
    fp: Seq<char>,
)
    ensures
        match route_of(scope, peers, ipmsg, fp) {
            Ok(RouteRow::Native { addrs, .. }) => forall|i: int|
                0 <= i < addrs.len() ==> net_scope::ip_allowed(scope, #[trigger] addrs[i]),
            Ok(RouteRow::Ipmsg { ip, .. }) => net_scope::ip_allowed(scope, ip),
            Err(_) => true,
        },
{
    let p = |a: IpAddr| net_scope::ip_allowed(scope, a);
    let addrs = reach::in_scope(scope, peers[fp].addrs);
    assert forall|i: int| 0 <= i < addrs.len() implies net_scope::ip_allowed(
        scope,
        #[trigger] addrs[i],
    ) by {
        assert(addrs.contains(addrs[i]));
        crate::seqs::lemma_filter_contains(peers[fp].addrs, p, addrs[i]);
    }
}

/// A message that has come in is kept, with what it says and when it was sent.
pub proof fn law_incoming_message_is_kept(
    r: Map<Seq<char>, storage::ItemRow>,
    peer_fp: Seq<char>,
    id: Seq<char>,
    body: Seq<char>,
    ts_ms: u64,
    sender_fp: Option<Seq<char>>,
    now: u64,
)
    ensures
        ({
            let x = storage::ItemRow::Text {
                id,
                peer_fp,
                direction: "in"@,
                body,
                ts_ms: as_signed(ts_ms),
                sender_fp,
            };
            !r.dom().contains(storage::tagged(x)) ==> storage::holds(
                persisted(
                    r,
                    manager::EventRow::Message { peer_fp, id, body, ts_ms, sender_fp },
                    now,
                ),
                x,
            )
        }),
{
}

/// An offered file is kept from the offer to its end: once it is done, its
/// record is in that state, with its path, whatever comes later.
pub proof fn law_file_is_kept_to_its_end(
    r: Map<Seq<char>, storage::ItemRow>,
    xfer_id: Seq<char>,
    peer_fp: Seq<char>,
    name: Seq<char>,
    size: u64,
    is_dir: bool,
    path: Seq<char>,
    now: u64,
    accept: bool,
)
    requires
        !r.dom().contains(storage::file_key(xfer_id)),
    ensures
        ({
            let offered = persisted(
                r,
                manager::EventRow::FileOffered { xfer_id, peer_fp, name, size, is_dir },
                now,
            );
            let done = persisted(offered, manager::EventRow::FileDone { xfer_id, path }, now);
            let k = storage::file_key(xfer_id);
            &&& storage::state_of(offered[k]) == "offered"@
            &&& storage::state_of(done[k]) == "done"@
            &&& done[k]->path == Some(path)
            &&& storage::advanced(done, xfer_id, answered_state(accept), None) == done
        }),
{
    reveal_strlit("offered");
    reveal_strlit("done");
    reveal_strlit("failed");
    reveal_strlit("rejected");
    assert("offered"@.len() == 7 && "done"@.len() == 4 && "failed"@.len() == 6);
    assert("rejected"@.len() == 8);
}

/// A file of the IP Messenger protocol is fetched over that protocol, as a
/// directory exactly if it was offered as one, and is put under its own name.
pub proof fn law_directory_is_fetched_as_one(
    scope: Seq<ScopeEntry>,
    offers: Map<Seq<char>, OfferRow>,
    peers: Map<Seq<char>, roster::PeerRow>,
    ipmsg: bool,
    xfer_id: Seq<char>,
    dir: Seq<char>,
    separator: char,
)
    ensures
        answer_of(scope, offers, peers, ipmsg, xfer_id, true, dir, separator) matches Ok(
            AnswerRow::Fetch { packet_no, file_id, is_dir, save_path, .. },
        ) ==> {
            &&& offers.dom().contains(xfer_id)
            &&& is_dir == offers[xfer_id].is_dir
            &&& packet_no == offers[xfer_id].packet_no
            &&& file_id == offers[xfer_id].file_id
            &&& save_path == filexfer::joined(dir, separator, offers[xfer_id].name)
        },
        !(answer_of(scope, offers, peers, ipmsg, xfer_id, false, dir, separator) is Err),
{
}

/// A message goes to a known peer the way that the peer was announced: to a native one
/// through all its addresses in scope, in their order, at its port; to one of the IP
/// Messenger protocol at the first of them, if that protocol is spoken. It cannot go
/// to an unknown peer.
pub proof fn law_known_peer_is_gone_to(
    scope: Seq<ScopeEntry>,
    peers: Map<Seq<char>, roster::PeerRow>,
    ipmsg: bool,
    fp: Seq<char>,
)
    ensures
        !peers.dom().contains(fp) ==> route_of(scope, peers, ipmsg, fp) == Err::<
            RouteRow,
            CoreError,
        >(CoreError::UnknownPeer),
        peers.dom().contains(fp) && peers[fp].protocol == Protocol::Native ==> {
            &&& route_of(scope, peers, ipmsg, fp) matches Ok(RouteRow::Native { addrs, port })
            &&& port == peers[fp].port
            &&& scope.len() == 0 ==> addrs == peers[fp].addrs
            &&& forall|x: IpAddr| #[trigger]
                addrs.contains(x) <==> peers[fp].addrs.contains(x) && net_scope::ip_allowed(
                    scope,
                    x,
                )
        },
        peers.dom().contains(fp) && peers[fp].protocol == Protocol::Ipmsg && peers[fp].addrs.len()
            > 0 && net_scope::ip_allowed(scope, peers[fp].addrs[0]) && ipmsg ==> route_of(
            scope,
            peers,
            ipmsg,
            fp,
        ) == Ok::<RouteRow, CoreError>(
            RouteRow::Ipmsg { ip: peers[fp].addrs[0], port: peers[fp].port },
        ),
        peers.dom().contains(fp) && peers[fp].protocol == Protocol::Ipmsg && (forall|i: int|
            0 <= i < peers[fp].addrs.len() ==> !net_scope::ip_allowed(
                scope,
                #[trigger] peers[fp].addrs[i],
            )) ==> route_of(scope, peers, ipmsg, fp) == Err::<RouteRow, CoreError>(
            CoreError::UnknownPeer,
        ),
        peers.dom().contains(fp) && peers[fp].protocol == Protocol::Ipmsg && !ipmsg ==> route_of(
            scope,
            peers,
            ipmsg,
            fp,
        ) is Err,
{
    let p = |a: IpAddr| net_scope::ip_allowed(scope, a);
    let all = peers[fp].addrs;
    let near = reach::in_scope(scope, all);
    assert(near == all.filter(p));
    if scope.len() == 0 {
        crate::seqs::lemma_filter_all(all, p);
    }
    assert forall|x: IpAddr| #[trigger] near.contains(x) <==> all.contains(x)
        && net_scope::ip_allowed(scope, x) by {
        crate::seqs::lemma_filter_contains(all, p, x);
    }
    if all.len() > 0 && net_scope::ip_allowed(scope, all[0]) {
        lemma_filter_first(all, p);
    }
    if forall|i: int| 0 <= i < all.len() ==> !net_scope::ip_allowed(scope, #[trigger] all[i]) {
        crate::seqs::lemma_filter_none(all, p);
    }
}

proof fn lemma_filter_first<A>(s: Seq<A>, p: spec_fn(A) -> bool)
    requires
        s.len() > 0,
        p(s[0]),
    ensures
        s.filter(p).len() > 0,
        s.filter(p)[0] == s[0],
    decreases s.len(),
{
    reveal(Seq::filter);
    if s.len() == 1 {
        assert(s.drop_last() =~= Seq::<A>::empty());
        assert(s.drop_last().filter(p) =~= Seq::<A>::empty());
    } else {
        lemma_filter_first(s.drop_last(), p);
    }
}

/// An answer to an offer that is not one of the IP Messenger protocol is left to the
/// native transport. One that is not accepted is declined. One that is accepted is
/// fetched from the peer that made it, at the first of its addresses in scope and at
/// its port, as what was offered and with the offered size; where the peer is not known
/// or cannot be gone to, that is reported.
pub proof fn law_accepted_offer_is_fetched_from_its_peer(
    scope: Seq<ScopeEntry>,
    offers: Map<Seq<char>, OfferRow>,
    peers: Map<Seq<char>, roster::PeerRow>,
    ipmsg: bool,
    xfer_id: Seq<char>,
    accept: bool,
    dir: Seq<char>,
    separator: char,
)
    ensures
        ({
            let a = answer_of(scope, offers, peers, ipmsg, xfer_id, accept, dir, separator);
            let o = offers[xfer_id];
            let from = peers[o.peer_fp];
            &&& (a matches Ok(AnswerRow::Native)) <==> !offers.dom().contains(xfer_id)
            &&& (a matches Ok(AnswerRow::Declined)) <==> offers.dom().contains(xfer_id) && !accept
            &&& offers.dom().contains(xfer_id) && accept && peers.dom().contains(o.peer_fp)
                && from.addrs.len() > 0 && net_scope::ip_allowed(scope, from.addrs[0]) && ipmsg
                ==> a == Ok::<AnswerRow, CoreError>(
                AnswerRow::Fetch {
                    ip: from.addrs[0],
                    port: from.port,
                    packet_no: o.packet_no,
                    file_id: o.file_id,
                    size: o.size,
                    is_dir: o.is_dir,
                    save_path: filexfer::joined(dir, separator, o.name),
                },
            )
            &&& a is Err <==> offers.dom().contains(xfer_id) && accept && (!peers.dom().contains(
                o.peer_fp,
            ) || !ipmsg || (forall|i: int|
                0 <= i < from.addrs.len() ==> !net_scope::ip_allowed(
                    scope,
                    #[trigger] from.addrs[i],
                )))
        }),
{
    let p = |a: IpAddr| net_scope::ip_allowed(scope, a);
    let all = peers[offers[xfer_id].peer_fp].addrs;
    let near = reach::in_scope(scope, all);
    assert(near == all.filter(p));
    if all.len() > 0 && net_scope::ip_allowed(scope, all[0]) {
        lemma_filter_first(all, p);
    }
    if forall|i: int| 0 <= i < all.len() ==> !net_scope::ip_allowed(scope, #[trigger] all[i]) {
        crate::seqs::lemma_filter_none(all, p);
    } else {
        let i = choose|i: int|
            0 <= i < all.len() && net_scope::ip_allowed(scope, #[trigger] all[i]);
        crate::seqs::lemma_filter_contains(all, p, all[i]);
        assert(near.contains(all[i]));
    }
}

/// A peer of the IP Messenger protocol alone becomes a contact of that protocol, with its
/// nickname, its address and its port, and is lost under the fingerprint under which it
/// was found. Two of them with different keys are different contacts.
pub proof fn law_ipmsg_peer_is_told(
    key: Seq<char>,
    other: Seq<char>,
    nick: Seq<char>,
    host: Seq<char>,
    addr: crate::addr::SocketAddr,
    group: Option<Seq<char>>,
)
    ensures
        ({
            let came = told(
                ipmsg::discovery::IpmsgEventRow::Online {
                    key,
                    nick,
                    host,
                    addr,
                    is_bigpaw: false,
                    group,
                },
            );
            let left = told(ipmsg::discovery::IpmsgEventRow::Offline { key });
            &&& came matches Some(roster::EventRow::Seen {
                nickname,
                addrs,
                port,
                protocol,
                ..
            }) && nickname == nick && addrs.len() == 1 && addrs[0] == IpAddr::V4(addr.ip) && port
                == addr.port && protocol == Protocol::Ipmsg
            &&& left matches Some(roster::EventRow::Lost { fingerprint }) && fingerprint
                == roster::subject(came->0)
            &&& roster::subject(came->0) == ipmsg_fp(key)
            &&& ipmsg_fp(key) == ipmsg_fp(other) ==> key == other
        }),
{
    let n = "ipmsg:"@.len() as int;
    assert(ipmsg_fp(key).skip(n) =~= key);
    assert(ipmsg_fp(other).skip(n) =~= other);
}

/// A text of the IP Messenger protocol is reported once, with its body as it came, as one
/// from the contact under which its sender is listed, and at the time when it came. It
/// tells discovery nothing and opens no offer.
pub proof fn law_ipmsg_text_is_reported(
    key: Seq<char>,
    from: Seq<char>,
    body: Seq<char>,
    ids: Seq<Seq<char>>,
    now: u64,
)
    ensures
        ({
            let ev = ipmsg::discovery::IpmsgEventRow::TextReceived { key, from, body };
            let r = reported(ev, ids, now);
            &&& r.len() == 1
            &&& r[0] matches manager::EventRow::Message {
                peer_fp,
                id,
                body: read,
                ts_ms,
                sender_fp,
            } && peer_fp == ipmsg_fp(key) && id == ids[0] && read == body && ts_ms == now
                && sender_fp is None
            &&& told(ev) is None
            &&& new_offers(ev, ids).len() == 0
        }),
{
}

proof fn lemma_offers_of(
    key: Seq<char>,
    packet_no: u32,
    files: Seq<ipmsg::filexfer::FileRow>,
    ids: Seq<Seq<char>>,
    n: int,
)
    requires
        0 <= n,
    ensures
        offers_of(key, packet_no, files, ids, n).len() == n,
        forall|i: int|
            0 <= i < n ==> #[trigger] offers_of(key, packet_no, files, ids, n)[i] == offer_of(
                key,
                packet_no,
                files[i],
                ids[i],
            ),
    decreases n,
{
    if n > 0 {
        lemma_offers_of(key, packet_no, files, ids, n - 1);
    }
}

/// Every file of an offer of the IP Messenger protocol is reported, in order, each under an
/// id of its own, with its name, its size and whether it is a directory, as one from
/// the contact under which the sender is listed; and what is needed to fetch it, the
/// number of the packet and of the file, is kept under that id.
pub proof fn law_ipmsg_files_are_reported(
    key: Seq<char>,
    from: Seq<char>,
    packet_no: u32,
    files: Seq<ipmsg::filexfer::FileRow>,
    ids: Seq<Seq<char>>,
    now: u64,
    i: int,
)
    requires
        0 <= i < files.len(),
    ensures
        ({
            let ev = ipmsg::discovery::IpmsgEventRow::FileOffered { key, from, packet_no, files };
            let r = reported(ev, ids, now);
            let o = new_offers(ev, ids)[i];
            &&& r.len() == files.len() && new_offers(ev, ids).len() == files.len()
            &&& r[i] matches manager::EventRow::FileOffered {
                xfer_id,
                peer_fp,
                name,
                size,
                is_dir,
            } && xfer_id == ids[i] && peer_fp == ipmsg_fp(key) && name == files[i].name && size
                == files[i].size && is_dir == files[i].is_dir
            &&& o.xfer_id == ids[i] && o.peer_fp == ipmsg_fp(key) && o.packet_no == packet_no
                && o.file_id == files[i].file_id && o.name == files[i].name && o.size
                == files[i].size && o.is_dir == files[i].is_dir
            &&& told(ev) is None
        }),
{
    lemma_offers_of(key, packet_no, files, ids, files.len() as int);
}

/// What is kept of an incoming file: an offer is kept with all that it says; then the file
/// is done, with its path, or has failed, whatever was answered to the offer. Progress,
/// messages of groups and lists of groups are not kept.
pub proof fn law_transfer_is_kept_as_it_went(
    r: Map<Seq<char>, storage::ItemRow>,
    xfer_id: Seq<char>,
    peer_fp: Seq<char>,
    name: Seq<char>,
    size: u64,
    is_dir: bool,
    reason: Seq<char>,
    now: u64,
    later: u64,
    quiet: manager::EventRow,
)
    requires
        !r.dom().contains(storage::file_key(xfer_id)),
        quiet is FileProgress || quiet is Group || quiet is GroupsChanged,
    ensures
        ({
            let k = storage::file_key(xfer_id);
            let offered = persisted(
                r,
                manager::EventRow::FileOffered { xfer_id, peer_fp, name, size, is_dir },
                now,
            );
            let failed = persisted(
                offered,
                manager::EventRow::FileFailed { xfer_id, reason },
                later,
            );
            &&& offered.dom() == r.dom().insert(k)
            &&& offered[k] matches storage::ItemRow::File {
                xfer_id: i,
                peer_fp: p,
                direction,
                name: n,
                size: z,
                is_dir: d,
                status,
                path,
                ts_ms,
            } && i == xfer_id && p == peer_fp && direction == "in"@ && n == name && z == as_signed(
                size,
            ) && d == is_dir && status == "offered"@ && path is None && ts_ms == as_signed(now)
            &&& storage::state_of(failed[k]) == "failed"@
            &&& persisted(r, quiet, now) == r
        }),
{
    storage::law_files_end_in_three_ways();
}

/// An event leaves every record but the one that it is about as it was.
pub proof fn law_events_keep_other_records(
    r: Map<Seq<char>, storage::ItemRow>,
    ev: manager::EventRow,
    now: u64,
    k: Seq<char>,
)
    requires
        r.dom().contains(k),
        ev matches manager::EventRow::FileDone { xfer_id, .. } ==> k != storage::file_key(xfer_id),
        ev matches manager::EventRow::FileFailed { xfer_id, .. } ==> k != storage::file_key(
            xfer_id,
        ),
    ensures
        persisted(r, ev, now).dom().contains(k),
        persisted(r, ev, now)[k] == r[k],
{
}

/// A text that was sent is kept as one of ours, with what it says, to whom it went, its id
/// and its time, and nothing else changes. Ours and theirs are told apart.
pub proof fn law_sent_text_is_kept(
    c: CoreRow,
    peer_fp: Seq<char>,
    body: Seq<char>,
    id: Seq<char>,
    ts_ms: u64,
    other: Seq<char>,
)
    requires
        !c.records.dom().contains(storage::message_key(id)),
        c.records.dom().contains(other),
    ensures
        ({
            let after = with_sent_text(c, peer_fp, body, id, ts_ms);
            &&& after.records.dom().contains(storage::message_key(id))
            &&& after.records[storage::message_key(id)] matches storage::ItemRow::Text {
                id: i,
                peer_fp: p,
                direction,
                body: b,
                ts_ms: t,
                sender_fp,
            } && i == id && p == peer_fp && b == body && t == as_signed(ts_ms) && sender_fp is None
                && direction == "out"@ && direction != "in"@
            &&& after.records[other] == c.records[other]
            &&& (CoreRow { records: c.records, ..after }) == c
        }),
{
    reveal_strlit("in");
    reveal_strlit("out");
    assert("in"@.len() == 2 && "out"@.len() == 3);
}

/// A file that was offered is kept as one of ours that is under way, with its name, its size
/// and to whom it was offered, and nothing else changes.
pub proof fn law_sent_offer_is_kept(
    c: CoreRow,
    peer_fp: Seq<char>,
    xfer_id: Seq<char>,
    name: Seq<char>,
    size: i64,
    now_ms: u64,
    other: Seq<char>,
)
    requires
        !c.records.dom().contains(storage::file_key(xfer_id)),
        c.records.dom().contains(other),
    ensures
        ({
            let after = with_sent_offer(c, peer_fp, xfer_id, name, size, now_ms);
            &&& after.records.dom().contains(storage::file_key(xfer_id))
            &&& after.records[storage::file_key(xfer_id)] matches storage::ItemRow::File {
                xfer_id: i,
                peer_fp: p,
                direction,
                name: n,
                size: z,
                is_dir,
                status,
                path,
                ts_ms,
            } && i == xfer_id && p == peer_fp && direction == "out"@ && n == name && z == size
                && !is_dir && status == "active"@ && path is None && ts_ms == as_signed(now_ms)
            &&& after.records[other] == c.records[other]
            &&& (CoreRow { records: c.records, ..after }) == c
        }),
{
}

/// An answered offer is open no longer, and no other offer is touched. Where it could be
/// answered, a file that was waiting is from then on under way or rejected, as the answer
/// was; where it could not, nothing that is kept changes.
pub proof fn law_answer_closes_the_offer(
    c: CoreRow,
    xfer_id: Seq<char>,
    accept: bool,
    answered: bool,
    other: Seq<char>,
)
    requires
        other != xfer_id,
    ensures
        ({
            let after = after_answer(c, xfer_id, accept, answered);
            let k = storage::file_key(xfer_id);
            &&& !after.offers.dom().contains(xfer_id)
            &&& after.offers.dom().contains(other) == c.offers.dom().contains(other)
            &&& c.offers.dom().contains(other) ==> after.offers[other] == c.offers[other]
            &&& !answered ==> after.records == c.records
            &&& answered && c.records.dom().contains(k) && c.records[k] is File
                && c.records[k]->status == "offered"@ ==> storage::state_of(after.records[k]) == (
            if accept {
                "active"@
            } else {
                "rejected"@
            })
            &&& answered ==> after.records == storage::advanced(
                c.records,
                xfer_id,
                if accept {
                    "active"@
                } else {
                    "rejected"@
                },
                None,
            )
            &&& (CoreRow { offers: c.offers, records: c.records, ..after }) == c
        }),
{
    storage::law_files_end_in_three_ways();
}

/// Once a call back has ended the peer may be called again. One that answered is reachable
/// from then on, and its addresses are remembered; one that did not is unreachable unless
/// it was known to be reachable, and nothing is remembered. Nothing else changes.
pub proof fn law_call_back_is_taken_in(
    c: CoreRow,
    fp: Seq<char>,
    addrs: Seq<IpAddr>,
    rows: Seq<net_ifaces::IfaceRow>,
    ok: bool,
)
    requires
        c.peers.dom().contains(fp),
        fp != c.me,
    ensures
        ({
            let after = after_call(c, fp, addrs, rows, ok);
            let peers = roster::after_event(c.me, c.peers, call_outcome(fp, ok));
            &&& !after.calling.contains(fp)
            &&& forall|x: Seq<char>| x != fp ==> #[trigger] after.calling.contains(x)
                == c.calling.contains(x)
            &&& !ok ==> after.history == c.history
            &&& (CoreRow { calling: c.calling, history: c.history, ..after }) == c
            &&& ok ==> peers[fp].state == PeerState::Reachable
            &&& !ok && c.peers[fp].state != PeerState::Reachable ==> peers[fp].state
                == PeerState::Unreachable
        }),
{
}

proof fn lemma_all_recorded(s: Seq<IpAddr>, ips: Seq<IpAddr>)
    requires
        ips.len() > 0,
    ensures
        all_recorded(s, ips).len() > 0,
        all_recorded(s, ips)[0] == ips.last(),
        all_recorded(s, ips).len() <= announce::MAX_HISTORY,
{
    announce::law_recorded(all_recorded(s, ips.drop_last()), ips.last());
}

/// Of a peer that answered, the addresses in one of our subnets are remembered, or all of
/// them where no interface is known; the last of them comes first then.
pub proof fn law_answering_peer_is_remembered(
    c: CoreRow,
    fp: Seq<char>,
    addrs: Seq<IpAddr>,
    rows: Seq<net_ifaces::IfaceRow>,
)
    ensures
        ({
            let after = after_call(c, fp, addrs, rows, true);
            let kept = remembered(addrs, rows);
            &&& rows.len() == 0 ==> kept == addrs
            &&& forall|x: IpAddr| #[trigger] kept.contains(x) <==> addrs.contains(x) && (rows.len()
                == 0 || net_ifaces::is_near(x, rows))
            &&& kept.len() > 0 ==> after.history.len() > 0 && after.history[0] == kept.last()
            &&& kept.len() == 0 ==> after.history == c.history
            &&& kept.len() > 0 ==> after.history == announce::recorded(
                all_recorded(c.history, kept.drop_last()),
                kept.last(),
            )
        }),
{
    let kept = remembered(addrs, rows);
    let p = |a: IpAddr| net_ifaces::is_near(a, rows);
    assert forall|x: IpAddr| #[trigger] kept.contains(x) <==> addrs.contains(x) && (rows.len() == 0
        || net_ifaces::is_near(x, rows)) by {
        crate::seqs::lemma_filter_contains(addrs, p, x);
    }
    if kept.len() > 0 {
        lemma_all_recorded(c.history, kept);
    }
}

/// An announcement of another peer in scope is taken in everywhere: the list holds the
/// peer as it was announced, with those of its addresses that are in scope; the peer is
/// kept for later with its nickname, its protocol and the time; and it counts as heard
/// from now. A native one that was not reached yet and is not being called is called
/// back, at exactly those addresses and its port.
pub proof fn law_announcement_is_taken_in(
    c: CoreRow,
    fingerprint: Seq<char>,
    nickname: Seq<char>,
    addrs: Seq<IpAddr>,
    port: u16,
    protocol: Protocol,
    addr: Option<Seq<char>>,
    group: Option<Seq<char>>,
    now: Instant,
    now_ms: u64,
    t: ProbeTarget,
    k: int,
)
    requires
        fingerprint != c.me,
        0 <= k < addrs.len(),
        net_scope::ip_allowed(c.scope, addrs[k]),
    ensures
        ({
            let ev = roster::EventRow::Seen { fingerprint, nickname, addrs, port, protocol };
            let after = noted(c, ev, addr, group, now, now_ms);
            let p = after.peers[fingerprint];
            let kept = after.known[fingerprint];
            &&& after.peers.dom() == c.peers.dom().insert(fingerprint)
            &&& p.nickname == nickname && p.port == port && p.protocol == protocol
            &&& p.addrs.to_multiset() == reach::in_scope(c.scope, addrs).to_multiset()
            &&& after.known.dom() == c.known.dom().insert(fingerprint)
            &&& kept.nickname == nickname && kept.group == group && kept.last_seen_ms == as_signed(
                now_ms,
            )
            &&& kept.protocol == protocol_text(protocol)
            &&& addr is Some ==> kept.last_addr == addr
            &&& after.seen.dom().contains(fingerprint) && after.seen[fingerprint] == now
            &&& calls(c, ev) <==> protocol == Protocol::Native && !c.calling.contains(fingerprint)
                && !(c.peers.dom().contains(fingerprint) && c.peers[fingerprint].state
                == PeerState::Reachable)
            &&& after.calling == (if calls(c, ev) {
                c.calling.insert(fingerprint)
            } else {
                c.calling
            })
            &&& is_target(t, c, ev) ==> t.fingerprint@ == fingerprint && t.port == port && t.addrs@
                == reach::in_scope(c.scope, addrs) && net_ifaces::rows(t.entries@) == c.ifaces
            &&& (CoreRow {
                peers: c.peers,
                known: c.known,
                seen: c.seen,
                calling: c.calling,
                ..after
            }) == c
        }),
{
    let ev = roster::EventRow::Seen { fingerprint, nickname, addrs, port, protocol };
    let p = |a: IpAddr| net_scope::ip_allowed(c.scope, a);
    let near = reach::in_scope(c.scope, addrs);
    assert(near == addrs.filter(p));
    crate::seqs::lemma_filter_contains(addrs, p, addrs[k]);
    assert(addrs.contains(addrs[k]));
    assert(near.contains(addrs[k]));
    roster::law_announcement_is_recorded(
        c.me,
        c.peers,
        fingerprint,
        nickname,
        near,
        port,
        protocol,
    );
    let after = noted(c, ev, addr, group, now, now_ms);
    assert(after.known.dom() =~= c.known.dom().insert(fingerprint));
}

/// A peer that was kept comes back with the same nickname and the same protocol, offline, at
/// the address that was kept of it; nothing is known of its port then.
pub proof fn law_kept_peer_comes_back(
    known: Map<Seq<char>, storage::KnownRow>,
    fingerprint: Seq<char>,
    nickname: Seq<char>,
    addrs: Seq<IpAddr>,
    port: u16,
    protocol: Protocol,
    addr: Option<Seq<char>>,
    group: Option<Seq<char>>,
    now: u64,
    at: Option<IpAddr>,
)
    ensures
        ({
            let ev = roster::EventRow::Seen { fingerprint, nickname, addrs, port, protocol };
            let back = seed_of(known_after(known, ev, addr, group, now)[fingerprint], at);
            &&& back.fingerprint == fingerprint
            &&& back.nickname == nickname
            &&& back.protocol == protocol
            &&& back.state == PeerState::Offline
            &&& at matches Some(a) ==> back.addrs.len() == 1 && back.addrs[0] == a
            &&& at is None ==> back.addrs.len() == 0
            &&& back.port == 0
        }),
{
    reveal_strlit("native");
    reveal_strlit("ipmsg");
    assert("native"@.len() == 6 && "ipmsg"@.len() == 5);
}

/// Only announcements change what is kept of peers, and only of the peer that was announced.
pub proof fn law_only_announcements_are_kept(
    known: Map<Seq<char>, storage::KnownRow>,
    seen: Map<Seq<char>, Instant>,
    ev: roster::EventRow,
    addr: Option<Seq<char>>,
    group: Option<Seq<char>>,
    now: Instant,
    now_ms: u64,
    fp: Seq<char>,
)
    ensures
        !(ev is Seen) ==> known_after(known, ev, addr, group, now_ms) == known && seen_after(
            seen,
            ev,
            now,
        ) == seen,
        fp != roster::subject(ev) && known.dom().contains(fp) ==> known_after(
            known,
            ev,
            addr,
            group,
            now_ms,
        ).dom().contains(fp) && known_after(known, ev, addr, group, now_ms)[fp] == known[fp],
        fp != roster::subject(ev) && seen.dom().contains(fp) ==> seen_after(
            seen,
            ev,
            now,
        ).dom().contains(fp) && seen_after(seen, ev, now)[fp] == seen[fp],
{
}

/// A peer counts as silent exactly if it was heard of, longer ago than a minute.
pub proof fn law_silence_takes_a_minute(
    m: Map<Seq<char>, Instant>,
    fp: Seq<char>,
    now: Instant,
    list: Seq<Seq<char>>,
)
    requires
        is_stale_list(m, now, PEER_TIMEOUT, list),
    ensures
        list.contains(fp) <==> m.dom().contains(fp) && now.nanos - m[fp].nanos > 60_000_000_000,
{
    assert(list.contains(fp) == is_stale(m, fp, now, PEER_TIMEOUT));
}

/// The nickname that was set counts, without white space around it; where nothing is left
/// of it, or none was set, the host name does. At the start a given nickname comes before
/// the one that was set, and that before the host name.
pub proof fn law_nickname_or_host_name(
    given: Option<Seq<char>>,
    set: Option<Seq<char>>,
    host: Seq<char>,
)
    ensures
        set is None ==> nickname_in(set, host) == host,
        set matches Some(n) ==> (forall|i: int| 0 <= i < n.len() ==> text::is_white(#[trigger] n[i]))
            ==> nickname_in(set, host) == host,
        set matches Some(n) ==> n.len() > 0 && !text::is_white(n[0]) && !text::is_white(n.last())
            ==> nickname_in(set, host) == n,
        set matches Some(n) ==> !text::all_white(n) ==> {
            let shown = nickname_in(set, host);
            &&& shown.len() > 0 && !text::is_white(shown[0]) && !text::is_white(shown.last())
            &&& exists|a: Seq<char>, b: Seq<char>|
                n == #[trigger] (a + shown + b) && text::all_white(a) && text::all_white(b)
        },
        given matches Some(n) ==> starting_nickname(given, set, host) == n,
        given is None && set is Some ==> starting_nickname(given, set, host) == set->0,
        given is None && set is None ==> starting_nickname(given, set, host) == host,
{
    if let Some(n) = set {
        text::law_trimming_takes_only_white_space(n);
        let (a, b) = choose|a: Seq<char>, b: Seq<char>|
            n == #[trigger] (a + text::trimmed(n) + b) && text::all_white(a) && text::all_white(b);
        let t = text::trimmed(n);
        if !text::all_white(n) {
            if t.len() == 0 {
                assert forall|i: int| 0 <= i < n.len() implies text::is_white(#[trigger] n[i]) by {
                    if i < a.len() {
                        assert(n[i] == a[i]);
                    } else {
                        assert(n[i] == b[i - a.len()]);
                    }
                }
            }
            assert(n == a + nickname_in(set, host) + b);
        }
        if forall|i: int| 0 <= i < n.len() ==> text::is_white(#[trigger] n[i]) {
            if t.len() > 0 {
                assert(n[a.len() as int] == t[0]);
            }
        }
        if n.len() > 0 && !text::is_white(n[0]) && !text::is_white(n.last()) {
            if a.len() > 0 {
                assert(n[0] == a[0]);
            }
            if b.len() > 0 {
                assert(n.last() == b[b.len() - 1]);
            }
            assert(a =~= Seq::<char>::empty() && b =~= Seq::<char>::empty());
            assert(n =~= t);
        }
    }
}

/// A number that is kept as a signed one is the same number where that can hold it, and the
/// same up to a power of two otherwise; different numbers stay different.
pub proof fn law_signed_number_is_the_same(n: u64, m: u64)
    ensures
        n <= 0x7FFF_FFFF_FFFF_FFFF ==> as_signed(n) == n,
        n > 0x7FFF_FFFF_FFFF_FFFF ==> as_signed(n) == n - 0x1_0000_0000_0000_0000,
        as_signed(n) == as_signed(m) ==> n == m,
{
}

/// Changed interfaces are taken over as they are listed, under the next generation, and the
/// addresses for broadcasts follow; where nothing has changed everything stays.
pub proof fn law_listing_is_followed(c: CoreRow, listed: Seq<net_ifaces::IfaceRow>)
    requires
        c.generation < u64::MAX,
        c.bcast.generation <= c.generation,
    ensures
        listed == c.ifaces ==> with_listing(c, listed) == c,
        listed != c.ifaces ==> {
            let after = with_listing(c, listed);
            &&& after.ifaces == listed
            &&& after.generation == c.generation + 1
            &&& after.bcast.targets == net_ifaces::broadcasts_of(listed)
            &&& after.bcast.generation <= after.generation
            &&& (CoreRow {
                ifaces: c.ifaces,
                generation: c.generation,
                bcast: c.bcast,
                ..after
            }) == c
        },
{
}

/// Changed settings change the nickname, the excluded interfaces, the scope and the
/// interfaces in use, and leave the peers, everything that is kept, the offers, the calls
/// and the protocols as they are.
pub proof fn law_settings_leave_the_rest(
    c: CoreRow,
    nickname: Option<Seq<char>>,
    host: Seq<char>,
    excluded: Seq<Seq<char>>,
    networks: Seq<Seq<char>>,
    ifaces: Seq<Interface>,
)
    ensures
        ({
            let after = with_settings(c, nickname, host, excluded, networks, ifaces);
            &&& after.nickname == nickname_in(nickname, host)
            &&& after.excluded == excluded
            &&& after.scope == net_scope::lenient_entries(networks)
            &&& after.ifaces == InterfaceRegistry::rows_from(ifaces, excluded)
            &&& after.generation == (if after.ifaces == c.ifaces {
                c.generation
            } else {
                (c.generation + 1) as u64
            })
            &&& after.ifaces == c.ifaces ==> after.bcast == c.bcast
            &&& after.ifaces != c.ifaces ==> after.bcast == after_snapshot(
                c.bcast,
                after.ifaces,
                after.generation,
            )
            &&& after.me == c.me
            &&& after.peers == c.peers
            &&& after.records == c.records
            &&& after.known == c.known
            &&& after.groups == c.groups
            &&& after.history == c.history
            &&& after.offers == c.offers
            &&& after.calling == c.calling
            &&& after.seen == c.seen
            &&& after.last_scan == c.last_scan
            &&& after.last_iface_refresh == c.last_iface_refresh
            &&& after.ipmsg == c.ipmsg
        }),
{
}

/// Interfaces are looked at again exactly if that was last done half a minute ago or longer.
pub proof fn law_interfaces_are_looked_at_in_time(c: CoreRow, now: Instant)
    ensures
        refreshes(c, now) <==> now.nanos - c.last_iface_refresh.nanos >= 30_000_000_000,
{
}

/// A host name is shown without the ending of the local network, however often it stands
/// there, and is otherwise what it was.
pub proof fn law_local_ending_is_cut_off(s: Seq<char>)
    ensures
        !text::has_suffix(without_local(s), ".local"@),
        without_local(s).len() <= s.len(),
        without_local(s) == s.take(without_local(s).len() as int),
        !text::has_suffix(s, ".local"@) ==> without_local(s) == s,
        without_local(s + ".local"@) == without_local(s),
    decreases s.len(),
{
    reveal_strlit(".local");
    let end = ".local"@;
    assert(end.len() == 6);
    if text::has_suffix(s, end) {
        let t = s.take(s.len() - end.len());
        law_local_ending_is_cut_off(t);
        assert(t.take(without_local(t).len() as int) =~= s.take(without_local(t).len() as int));
    } else {
        assert(s =~= s.take(s.len() as int));
    }
    let u = s + end;
    assert(u.skip(u.len() - end.len()) =~= end);
    assert(u.take(u.len() - end.len()) =~= s);
}

/// A scan does to a silent peer what silence does to it anywhere, and to no other peer anything.
pub proof fn law_scan_is_silence(
    me: Seq<char>,
    peers: Map<Seq<char>, roster::PeerRow>,
    list: Seq<Seq<char>>,
    fp: Seq<char>,
)
    requires
        peers.dom().contains(fp),
    ensures
        list.contains(fp) ==> silenced(peers, list)[fp] == roster::after_event(
            me,
            peers,
            roster::EventRow::Lost { fingerprint: fp },
        )[fp],
        !list.contains(fp) ==> silenced(peers, list)[fp] == peers[fp],
{
}

/// A scan notes when it was made, forgets when the silent ones were heard, and changes nothing
/// else but their states.
pub proof fn law_scan_changes_nothing_else(
    c: CoreRow,
    list: Seq<Seq<char>>,
    now: Instant,
    fp: Seq<char>,
)
    ensures
        ({
            let after = scanned(c, list, now);
            &&& after.last_scan == now
            &&& !list.contains(fp) && c.seen.dom().contains(fp) ==> after.seen.dom().contains(fp)
                && after.seen[fp] == c.seen[fp]
            &&& after.peers.dom() == c.peers.dom()
            &&& (CoreRow { peers: c.peers, seen: c.seen, last_scan: c.last_scan, ..after }) == c
        }),
{
    let after = scanned(c, list, now);
    assert(after.peers.dom() =~= c.peers.dom());
    if !list.contains(fp) {
        assert(!list.to_set().contains(fp));
    }
}

/// As many ids are needed for an event as there are events that carry one.
pub proof fn law_every_report_has_an_id(
    ev: ipmsg::discovery::IpmsgEventRow,
    ids: Seq<Seq<char>>,
    now: u64,
)
    ensures
        reported(ev, ids, now).len() == ids_needed(ev),
{
    if let ipmsg::discovery::IpmsgEventRow::FileOffered { key, packet_no, files, .. } = ev {
        lemma_offers_of(key, packet_no, files, ids, files.len() as int);
    }
}

/// Without any setting the host name is the nickname, every address may be spoken to, no
/// interface is excluded, the IP Messenger protocol is spoken, and every message of a
/// conversation that is not being looked at is marked and, if none was a short time ago,
/// notified of.
pub proof fn law_default_settings_allow_everything(
    s: Settings,
    host: Seq<char>,
    ip: IpAddr,
    name: Seq<char>,
    i: crate::notify::DecideInput<'_>,
)
    requires
        s.is_default(),
        *i.settings == s,
        !i.window_focused,
        i.last_notify is None,
    ensures
        nickname_in(text::opt_text(s.nickname), host) == host,
        net_scope::ip_allowed(
            net_scope::lenient_entries(text::texts(s.allowed_networks@)),
            ip,
        ),
        !text::texts(s.excluded_interfaces@).contains(name),
        s.ipmsg_enabled,
        s.group is None,
        s.download_dir is None,
        s.notify_sound && s.notify_show_preview,
        crate::notify::decision_on(i).mark_unread,
        crate::notify::decision_on(i).notify,
{
    assert(text::texts(s.allowed_networks@) =~= Seq::<Seq<char>>::empty());
    crate::notify::law_other_messages_are_noticed(i);
}

/// A list of the peers is given out exactly if something has changed, and is the list of what
/// the peers are then: each of them stands in it.
pub proof fn law_every_change_is_published(
    list: Option<Vec<Peer>>,
    before: Map<Seq<char>, roster::PeerRow>,
    after: Map<Seq<char>, roster::PeerRow>,
    fp: Seq<char>,
)
    requires
        is_published(list, before, after),
    ensures
        list is Some <==> before != after,
        list matches Some(v) ==> after.dom().contains(fp) ==> exists|i: int|
            0 <= i < v@.len() && (#[trigger] v@[i])@ == after[fp],
{
    if let Some(v) = list {
        if after.dom().contains(fp) {
            let rows = roster::peer_rows(v@);
            let i = choose|i: int| 0 <= i < rows.len() && (#[trigger] rows[i]).fingerprint == fp;
            assert(v@[i]@ == rows[i]);
        }
    }
}

} // verus!
