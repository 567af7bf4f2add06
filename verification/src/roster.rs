//! The contact list: one record for each peer, found by fingerprint.
//!
//! A peer is `Discovered` once it has been announced, `Reachable` or
//! `Unreachable` once it has been called back, and `Offline` once it has
//! fallen silent. A repeated announcement does not undo what calling back has
//! shown, a failed call does not undo a successful one, and falling silent
//! marks only peers that counted as online: an `Unreachable` peer stays so.

use crate::addr::IpAddr;
use crate::order;
use crate::order::{sort_ranked, Ranked};
use crate::table;
use crate::table::{Keyed, Table};
use crate::text;
use crate::text::{less_text, same_text};
use vstd::prelude::*;

verus! {

/// The protocol by which a peer is spoken to.
#[derive(Debug, Clone, Copy, PartialEq, Eq, Structural)]
pub enum Protocol {
    Native,
    Ipmsg,
}

/// What is known of a peer's presence.
#[derive(Debug, Clone, Copy, PartialEq, Eq, Structural)]
pub enum PeerState {
    Discovered,
    Offline,
    Reachable,
    Unreachable,
}

/// A contact.
#[derive(Debug, Clone, PartialEq)]
pub struct Peer {
    pub fingerprint: String,
    pub nickname: String,
    pub addrs: Vec<IpAddr>,
    pub port: u16,
    pub protocol: Protocol,
    pub state: PeerState,
}

/// What discovery reports.
#[derive(Debug, Clone, PartialEq)]
pub enum DiscoveryEvent {
    /// The peer was announced.
    Seen {
        fingerprint: String,
        nickname: String,
        addrs: Vec<IpAddr>,
        port: u16,
        protocol: Protocol,
    },
    /// The peer has left or fallen silent.
    Lost { fingerprint: String },
    /// Calling the peer back succeeded.
    Registered { fingerprint: String },
    /// Calling the peer back failed.
    Unreachable { fingerprint: String },
}

// ---------------------------------------------------------------------------
// Model
// ---------------------------------------------------------------------------

/// A contact by the values that it holds.
#[verifier::ext_equal]
pub struct PeerRow {
    pub fingerprint: Seq<char>,
    pub nickname: Seq<char>,
    pub addrs: Seq<IpAddr>,
    pub port: u16,
    pub protocol: Protocol,
    pub state: PeerState,
}

impl View for Peer {
    type V = PeerRow;

    open spec fn view(&self) -> PeerRow {
        PeerRow {
            fingerprint: self.fingerprint@,
            nickname: self.nickname@,
            addrs: self.addrs@,
            port: self.port,
            protocol: self.protocol,
            state: self.state,
        }
    }
}

/// A report of discovery by the values that it holds.
#[verifier::ext_equal]
pub enum EventRow {
    Seen {
        fingerprint: Seq<char>,
        nickname: Seq<char>,
        addrs: Seq<IpAddr>,
        port: u16,
        protocol: Protocol,
    },
    Lost { fingerprint: Seq<char> },
    Registered { fingerprint: Seq<char> },
    Unreachable { fingerprint: Seq<char> },
}

impl View for DiscoveryEvent {
    type V = EventRow;

    open spec fn view(&self) -> EventRow {
        match self {
            DiscoveryEvent::Seen { fingerprint, nickname, addrs, port, protocol } => EventRow::Seen {
                fingerprint: fingerprint@,
                nickname: nickname@,
                addrs: addrs@,
                port: *port,
                protocol: *protocol,
            },
            DiscoveryEvent::Lost { fingerprint } => EventRow::Lost { fingerprint: fingerprint@ },
            DiscoveryEvent::Registered { fingerprint } => EventRow::Registered {
                fingerprint: fingerprint@,
            },
            DiscoveryEvent::Unreachable { fingerprint } => EventRow::Unreachable {
                fingerprint: fingerprint@,
            },
        }
    }
}

/// Addresses are ordered by family, IPv4 first, and by number.
pub open spec fn addr_before(a: IpAddr, b: IpAddr) -> bool {
    match (a, b) {
        (IpAddr::V4(x), IpAddr::V4(y)) => x.bits < y.bits,
        (IpAddr::V4(_), IpAddr::V6(_)) => true,
        (IpAddr::V6(_), IpAddr::V4(_)) => false,
        (IpAddr::V6(x), IpAddr::V6(y)) => x < y,
    }
}

impl Ranked for IpAddr {
    open spec fn before(self, other: Self) -> bool {
        addr_before(self, other)
    }

    fn comes_before(&self, other: &Self) -> (r: bool) {
        match (self, other) {
            (IpAddr::V4(x), IpAddr::V4(y)) => x.bits < y.bits,
            (IpAddr::V4(_), IpAddr::V6(_)) => true,
            (IpAddr::V6(_), IpAddr::V4(_)) => false,
            (IpAddr::V6(x), IpAddr::V6(y)) => *x < *y,
        }
    }
}

/// The addresses in order.
pub open spec fn addrs_in_order(v: Seq<IpAddr>) -> Seq<IpAddr> {
    order::sorted(v, order::by_rank::<IpAddr>())
}

/// The state of a peer that has just been announced.
pub open spec fn state_when_seen(known: Map<Seq<char>, PeerRow>, fp: Seq<char>) -> PeerState {
    if known.dom().contains(fp) && known[fp].state != PeerState::Offline {
        known[fp].state
    } else {
        PeerState::Discovered
    }
}

/// The contacts with the state of one of them changed.
pub open spec fn with_state(
    known: Map<Seq<char>, PeerRow>,
    fp: Seq<char>,
    state: PeerState,
) -> Map<Seq<char>, PeerRow> {
    known.insert(fp, PeerRow { state, ..known[fp] })
}

/// The contacts after an event.
pub open spec fn after_event(
    me: Seq<char>,
    known: Map<Seq<char>, PeerRow>,
    ev: EventRow,
) -> Map<Seq<char>, PeerRow> {
    match ev {
        EventRow::Seen { fingerprint, nickname, addrs, port, protocol } => if fingerprint == me {
            known
        } else {
            known.insert(
                fingerprint,
                PeerRow {
                    fingerprint,
                    nickname,
                    addrs: addrs_in_order(addrs),
                    port,
                    protocol,
                    state: state_when_seen(known, fingerprint),
                },
            )
        },
        EventRow::Lost { fingerprint } => if known.dom().contains(fingerprint) && (
        known[fingerprint].state == PeerState::Discovered || known[fingerprint].state
            == PeerState::Reachable) {
            with_state(known, fingerprint, PeerState::Offline)
        } else {
            known
        },
        EventRow::Registered { fingerprint } => if known.dom().contains(fingerprint) {
            with_state(known, fingerprint, PeerState::Reachable)
        } else {
            known
        },
        EventRow::Unreachable { fingerprint } => if known.dom().contains(fingerprint)
            && known[fingerprint].state != PeerState::Reachable {
            with_state(known, fingerprint, PeerState::Unreachable)
        } else {
            known
        },
    }
}

/// The contacts after known peers have been put in as offline: neither the
/// own fingerprint nor one that is already there.
pub open spec fn seeded(
    me: Seq<char>,
    known: Map<Seq<char>, PeerRow>,
    peers: Seq<PeerRow>,
) -> Map<Seq<char>, PeerRow>
    decreases peers.len(),
{
    if peers.len() == 0 {
        known
    } else {
        let before = seeded(me, known, peers.drop_last());
        let p = peers.last();
        if p.fingerprint == me || before.dom().contains(p.fingerprint) {
            before
        } else {
            before.insert(p.fingerprint, PeerRow { state: PeerState::Offline, ..p })
        }
    }
}

/// Contacts are listed by nickname, then by fingerprint.
pub open spec fn peer_before(a: PeerRow, b: PeerRow) -> bool {
    text::text_less(a.nickname, b.nickname) || (a.nickname == b.nickname && text::text_less(
        a.fingerprint,
        b.fingerprint,
    ))
}

/// Whether the list holds exactly the contacts, in order.
pub open spec fn is_listing(known: Map<Seq<char>, PeerRow>, list: Seq<PeerRow>) -> bool {
    &&& forall|i: int, j: int|
        0 <= i < j < list.len() ==> peer_before(#[trigger] list[i], #[trigger] list[j])
    &&& forall|i: int|
        0 <= i < list.len() ==> known.dom().contains((#[trigger] list[i]).fingerprint)
            && known[list[i].fingerprint] == list[i]
    &&& forall|fp: Seq<char>| #[trigger]
        known.dom().contains(fp) ==> exists|i: int|
            0 <= i < list.len() && (#[trigger] list[i]).fingerprint == fp
}

/// The rows of peers.
pub open spec fn peer_rows(v: Seq<Peer>) -> Seq<PeerRow> {
    v.map_values(|p: Peer| p@)
}

impl Keyed for Peer {
    open spec fn key(self) -> Seq<char> {
        self.fingerprint@
    }

    fn has_key(&self, k: &str) -> (r: bool) {
        same_text(&self.fingerprint, k)
    }
}

impl Ranked for Peer {
    open spec fn before(self, other: Self) -> bool {
        peer_before(self@, other@)
    }

    fn comes_before(&self, other: &Self) -> (r: bool) {
        less_text(&self.nickname, &other.nickname) || (same_text(&self.nickname, &other.nickname)
            && less_text(&self.fingerprint, &other.fingerprint))
    }
}

/// The order of contacts is one that sorting can use, and fingerprints decide ties.
proof fn lemma_peer_order()
    ensures
        order::is_weak_order(order::by_rank::<Peer>()),
        forall|a: Peer, b: Peer|
            a@.fingerprint != b@.fingerprint ==> #[trigger] a.before(b) || b.before(a),
{
    let less = order::by_rank::<Peer>();
    assert forall|a: Peer, b: Peer| #[trigger] less(a, b) implies !less(b, a) by {
        text::lemma_text_order(a@.nickname, b@.nickname, b@.nickname);
        text::lemma_text_order(a@.fingerprint, b@.fingerprint, b@.fingerprint);
    }
    assert forall|a: Peer, b: Peer, c: Peer|
        !(#[trigger] less(b, a)) && !(#[trigger] less(c, b)) implies !less(c, a) by {
        text::lemma_text_order(a@.nickname, b@.nickname, c@.nickname);
        text::lemma_text_order(a@.fingerprint, b@.fingerprint, c@.fingerprint);
    }
    assert forall|a: Peer, b: Peer|
        a@.fingerprint != b@.fingerprint implies #[trigger] a.before(b) || b.before(a) by {
        text::lemma_text_order(a@.nickname, b@.nickname, b@.nickname);
        text::lemma_text_order(a@.fingerprint, b@.fingerprint, b@.fingerprint);
    }
}

// ---------------------------------------------------------------------------
// The roster
// ---------------------------------------------------------------------------

/// A copy of a list of addresses.
pub fn copy_addrs(v: &Vec<IpAddr>) -> (r: Vec<IpAddr>)
    ensures
        r@ == v@,
{
    let mut r: Vec<IpAddr> = Vec::new();
    let mut i: usize = 0;
    while i < v.len()
        invariant
            i <= v.len(),
            r@ == v@.take(i as int),
        decreases v.len() - i,
    {
        r.push(v[i]);
        i = i + 1;
    }
    r
}

impl Peer {
    /// A copy of the contact.
    pub fn copied(&self) -> (r: Self)
        ensures
            r@ == self@,
    {
        Peer {
            fingerprint: self.fingerprint.clone(),
            nickname: self.nickname.clone(),
            addrs: copy_addrs(&self.addrs),
            port: self.port,
            protocol: self.protocol,
            state: self.state,
        }
    }

    /// Whether two contacts hold the same values.
    pub fn same(&self, other: &Self) -> (r: bool)
        ensures
            r == (self@ == other@),
    {
        same_text(&self.fingerprint, &other.fingerprint) && same_text(
            &self.nickname,
            &other.nickname,
        ) && same_addrs(&self.addrs, &other.addrs) && self.port == other.port && self.protocol
            == other.protocol && self.state == other.state
    }
}

/// Whether two lists of addresses are equal.
fn same_addrs(a: &Vec<IpAddr>, b: &Vec<IpAddr>) -> (r: bool)
    ensures
        r == (a@ == b@),
{
    if a.len() != b.len() {
        return false;
    }
    let mut i: usize = 0;
    while i < a.len()
        invariant
            i <= a.len(),
            a.len() == b.len(),
            forall|j: int| 0 <= j < i ==> a@[j] == b@[j],
        decreases a.len() - i,
    {
        if a[i] != b[i] {
            return false;
        }
        i = i + 1;
    }
    assert(a@ =~= b@);
    true
}

/// The contact list of the peer with the fingerprint `self_fingerprint`.
#[derive(Debug)]
pub struct Roster {
    self_fingerprint: String,
    peers: Table<Peer>,
}

impl Roster {
    /// The own fingerprint.
    pub closed spec fn me(&self) -> Seq<char> {
        self.self_fingerprint@
    }

    /// The contacts by fingerprint.
    pub closed spec fn peers(&self) -> Map<Seq<char>, PeerRow> {
        self.peers@.map_values(|p: Peer| p@)
    }

    /// A record stands under its own fingerprint, and never under the own one.
    pub open spec fn well_formed(&self) -> bool {
        &&& !self.peers().dom().contains(self.me())
        &&& forall|fp: Seq<char>| #[trigger]
            self.peers().dom().contains(fp) ==> self.peers()[fp].fingerprint == fp
    }

    /// An empty list.
    pub fn new(self_fingerprint: String) -> (r: Self)
        ensures
            r.well_formed(),
            r.me() == self_fingerprint@,
            r.peers() == Map::<Seq<char>, PeerRow>::empty(),
    {
        let r: Roster = Roster { self_fingerprint, peers: Table::new() };
        assert(r.peers() =~= Map::<Seq<char>, PeerRow>::empty());
        r
    }

    /// Puts a record in, in place of one with the same fingerprint.
    fn put(&mut self, peer: Peer)
        ensures
            final(self).me() == old(self).me(),
            final(self).peers() == old(self).peers().insert(peer@.fingerprint, peer@),
    {
        let k: String = peer.fingerprint.clone();
        let ghost before = self.peers@;
        self.peers.insert(peer, &k);
        assert(self.peers() =~= before.map_values(|p: Peer| p@).insert(peer@.fingerprint, peer@));
    }

    /// Changes the state of a known contact.
    fn set_state(&mut self, fp: &str, state: PeerState)
        requires
            old(self).well_formed(),
            old(self).peers().dom().contains(fp@),
        ensures
            final(self).me() == old(self).me(),
            final(self).peers() == with_state(old(self).peers(), fp@, state),
    {
        if let Some(p) = self.peers.get(fp) {
            let mut q: Peer = p.copied();
            q.state = state;
            proof {
                assert(p@ == self.peers()[fp@]);
                assert(q@ =~= PeerRow { state, ..self.peers()[fp@] });
            }
            self.put(q);
        }
    }

    /// The state of a contact.
    fn state_of(&self, fp: &str) -> (r: Option<PeerState>)
        ensures
            match r {
                Some(s) => self.peers().dom().contains(fp@) && self.peers()[fp@].state == s,
                None => !self.peers().dom().contains(fp@),
            },
    {
        match self.peers.get(fp) {
            Some(p) => {
                assert(self.peers()[fp@] == p@);
                Some(p.state)
            },
            None => None,
        }
    }

    /// Takes an event in; says whether the list has changed.
    pub fn apply(&mut self, ev: DiscoveryEvent) -> (r: bool)
        requires
            old(self).well_formed(),
        ensures
            final(self).well_formed(),
            final(self).me() == old(self).me(),
            final(self).peers() == after_event(old(self).me(), old(self).peers(), ev@),
            r == (final(self).peers() != old(self).peers()),
    {
        let ghost before = self.peers();
        match ev {
            DiscoveryEvent::Seen { fingerprint, nickname, addrs, port, protocol } => {
                if same_text(&fingerprint, &self.self_fingerprint) {
                    return false;
                }
                let ghost given = addrs@;
                let addrs: Vec<IpAddr> = sort_ranked(addrs);
                let state: PeerState = match self.state_of(&fingerprint) {
                    Some(PeerState::Offline) => PeerState::Discovered,
                    Some(kept) => kept,
                    None => PeerState::Discovered,
                };
                let peer: Peer = Peer { fingerprint, nickname, addrs, port, protocol, state };
                proof {
                    assert(peer@ =~= PeerRow {
                        fingerprint: fingerprint@,
                        nickname: nickname@,
                        addrs: addrs_in_order(given),
                        port,
                        protocol,
                        state: state_when_seen(before, fingerprint@),
                    });
                }
                let unchanged: bool = match self.peers.get(&peer.fingerprint) {
                    Some(existing) => {
                        proof {
                            assert(before[peer@.fingerprint] == existing@);
                        }
                        existing.same(&peer)
                    },
                    None => false,
                };
                if unchanged {
                    proof {
                        assert(before.insert(peer@.fingerprint, peer@) =~= before);
                    }
                    return false;
                }
                self.put(peer);
                proof {
                    assert(self.peers()[peer@.fingerprint] == peer@);
                }
                true
            },
            DiscoveryEvent::Lost { fingerprint } => {
                match self.state_of(&fingerprint) {
                    Some(PeerState::Discovered) | Some(PeerState::Reachable) => {
                        self.set_state(&fingerprint, PeerState::Offline);
                        proof {
                            assert(self.peers()[fingerprint@].state == PeerState::Offline);
                        }
                        true
                    },
                    _ => false,
                }
            },
            DiscoveryEvent::Registered { fingerprint } => {
                match self.state_of(&fingerprint) {
                    None => false,
                    Some(PeerState::Reachable) => {
                        proof {
                            assert(with_state(before, fingerprint@, PeerState::Reachable)
                                =~= before) by {
                                assert((PeerRow {
                                    state: PeerState::Reachable,
                                    ..before[fingerprint@]
                                }) =~= before[fingerprint@]);
                            }
                        }
                        false
                    },
                    Some(_) => {
                        self.set_state(&fingerprint, PeerState::Reachable);
                        proof {
                            assert(self.peers()[fingerprint@].state == PeerState::Reachable);
                        }
                        true
                    },
                }
            },
            DiscoveryEvent::Unreachable { fingerprint } => {
                match self.state_of(&fingerprint) {
                    None => false,
                    Some(PeerState::Reachable) => false,
                    Some(PeerState::Unreachable) => {
                        proof {
                            assert(with_state(before, fingerprint@, PeerState::Unreachable)
                                =~= before) by {
                                assert((PeerRow {
                                    state: PeerState::Unreachable,
                                    ..before[fingerprint@]
                                }) =~= before[fingerprint@]);
                            }
                        }
                        false
                    },
                    Some(_) => {
                        self.set_state(&fingerprint, PeerState::Unreachable);
                        proof {
                            assert(self.peers()[fingerprint@].state == PeerState::Unreachable);
                        }
                        true
                    },
                }
            },
        }
    }

    /// Puts in peers known from earlier as offline. The own fingerprint and
    /// contacts already in the list are left alone.
    pub fn seed_offline(&mut self, peers: Vec<Peer>)
        requires
            old(self).well_formed(),
        ensures
            final(self).well_formed(),
            final(self).me() == old(self).me(),
            final(self).peers() == seeded(old(self).me(), old(self).peers(), peer_rows(peers@)),
    {
        let ghost before = self.peers();
        let ghost me = self.me();
        let ghost given = peer_rows(peers@);
        let mut i: usize = 0;
        proof {
            assert(given.take(0) =~= Seq::<PeerRow>::empty());
        }
        while i < peers.len()
            invariant
                i <= peers.len(),
                given == peer_rows(peers@),
                self.well_formed(),
                self.me() == me,
                self.peers() == seeded(me, before, given.take(i as int)),
            decreases peers.len() - i,
        {
            proof {
                assert(given.take(i + 1).drop_last() =~= given.take(i as int));
                assert(given.take(i + 1).last() == peers@[i as int]@);
            }
            let mut p: Peer = peers[i].copied();
            if !same_text(&p.fingerprint, &self.self_fingerprint) {
                let known: bool = match self.state_of(&p.fingerprint) {
                    Some(_) => true,
                    None => false,
                };
                if !known {
                    p.state = PeerState::Offline;
                    proof {
                        assert(p@ =~= PeerRow { state: PeerState::Offline, ..peers@[i as int]@ });
                    }
                    self.put(p);
                }
            }
            i = i + 1;
        }
        proof {
            assert(given.take(i as int) =~= given);
        }
    }

    /// The contacts by nickname, then by fingerprint.
    pub fn snapshot(&self) -> (r: Vec<Peer>)
        requires
            self.well_formed(),
        ensures
            is_listing(self.peers(), peer_rows(r@)),
    {
        let rows: &Vec<Peer> = self.peers.rows();
        let mut v: Vec<Peer> = Vec::new();
        let mut i: usize = 0;
        while i < rows.len()
            invariant
                i <= rows.len(),
                v.len() == i,
                forall|j: int| 0 <= j < i ==> (#[trigger] v@[j])@ == rows@[j]@,
            decreases rows.len() - i,
        {
            v.push(rows[i].copied());
            i = i + 1;
        }
        let ghost copied = v@;
        let r: Vec<Peer> = sort_ranked(v);
        proof {
            let less = order::by_rank::<Peer>();
            lemma_peer_order();
            assert(table::keys_differ(copied)) by {
                assert forall|a: int, b: int| 0 <= a < b < copied.len() implies (
                #[trigger] copied[a]).key() != (#[trigger] copied[b]).key() by {
                    assert(copied[a]@ == rows@[a]@);
                    assert(copied[b]@ == rows@[b]@);
                    assert(rows@[a].key() != rows@[b].key());
                }
            }
            table::lemma_sorted_rows(copied, less);
            table::lemma_map_of(copied);
            table::lemma_map_of(rows@);
            table::lemma_map_of(r@);
            let list = peer_rows(r@);
            let known = self.peers();
            assert forall|i: int, j: int| 0 <= i < j < list.len() implies peer_before(
                #[trigger] list[i],
                #[trigger] list[j],
            ) by {
                assert(!less(r@[j], r@[i]));
                assert(r@[i].key() != r@[j].key());
                assert(r@[i].before(r@[j]) || r@[j].before(r@[i]));
            }
            assert forall|i: int| 0 <= i < list.len() implies known.dom().contains(
                (#[trigger] list[i]).fingerprint,
            ) && known[list[i].fingerprint] == list[i] by {
                let k = r@[i].key();
                assert(table::map_of(r@).dom().contains(k));
                assert(table::map_of(r@)[k] == r@[i]);
                assert(table::map_of(copied).dom().contains(k));
                let a = choose|a: int| 0 <= a < copied.len() && (#[trigger] copied[a]).key() == k;
                assert(copied[a]@ == rows@[a]@);
                assert(rows@[a].key() == k);
                assert(table::map_of(rows@)[k] == rows@[a]);
            }
            assert forall|fp: Seq<char>| #[trigger] known.dom().contains(fp) implies exists|i: int|
                0 <= i < list.len() && (#[trigger] list[i]).fingerprint == fp by {
                assert(table::map_of(rows@).dom().contains(fp));
                let a = choose|a: int| 0 <= a < rows@.len() && (#[trigger] rows@[a]).key() == fp;
                assert(copied[a]@ == rows@[a]@);
                assert(copied[a].key() == fp);
                assert(table::map_of(copied).dom().contains(fp));
                assert(table::map_of(r@).dom().contains(fp));
                let b = choose|b: int| 0 <= b < r@.len() && (#[trigger] r@[b]).key() == fp;
                assert(list[b].fingerprint == fp);
            }
        }
        r
    }
}

/// The peer that an event is about.
pub open spec fn subject(ev: EventRow) -> Seq<char> {
    match ev {
        EventRow::Seen { fingerprint, .. } => fingerprint,
        EventRow::Lost { fingerprint } => fingerprint,
        EventRow::Registered { fingerprint } => fingerprint,
        EventRow::Unreachable { fingerprint } => fingerprint,
    }
}

/// Taking in the same event a second time changes nothing.
pub proof fn law_event_twice_is_event_once(
    me: Seq<char>,
    known: Map<Seq<char>, PeerRow>,
    ev: EventRow,
)
    ensures
        after_event(me, after_event(me, known, ev), ev) == after_event(me, known, ev),
{
    let once = after_event(me, known, ev);
    assert(after_event(me, once, ev) =~= once);
}

/// No event removes a contact, and an event touches only the peer that it is about.
pub proof fn law_event_keeps_other_contacts(
    me: Seq<char>,
    known: Map<Seq<char>, PeerRow>,
    ev: EventRow,
)
    ensures
        known.dom().subset_of(after_event(me, known, ev).dom()),
        forall|fp: Seq<char>|
            fp != subject(ev) ==> known.dom().contains(fp) == #[trigger] after_event(
                me,
                known,
                ev,
            ).dom().contains(fp) && (known.dom().contains(fp) ==> after_event(me, known, ev)[fp]
                == known[fp]),
{
}

/// The own fingerprint never becomes a contact.
pub proof fn law_self_is_never_listed(
    me: Seq<char>,
    known: Map<Seq<char>, PeerRow>,
    ev: EventRow,
    peers: Seq<PeerRow>,
)
    requires
        !known.dom().contains(me),
    ensures
        !after_event(me, known, ev).dom().contains(me),
        !seeded(me, known, peers).dom().contains(me),
    decreases peers.len(),
{
    if peers.len() > 0 {
        law_self_is_never_listed(me, known, ev, peers.drop_last());
    }
}

/// Once calling back has succeeded, neither an announcement nor a failed call
/// takes that back; only silence does.
pub proof fn law_reachable_is_kept(me: Seq<char>, known: Map<Seq<char>, PeerRow>, ev: EventRow)
    requires
        known.dom().contains(subject(ev)),
        known[subject(ev)].state == PeerState::Reachable,
    ensures
        after_event(me, known, ev)[subject(ev)].state == (if ev is Lost {
            PeerState::Offline
        } else {
            PeerState::Reachable
        }),
{
}

/// A peer that was offline counts as discovered, not as reachable, when it is
/// announced again.
pub proof fn law_return_is_discovered(
    me: Seq<char>,
    known: Map<Seq<char>, PeerRow>,
    ev: EventRow,
)
    requires
        ev is Seen,
        subject(ev) != me,
        known.dom().contains(subject(ev)) ==> known[subject(ev)].state == PeerState::Offline,
    ensures
        after_event(me, known, ev).dom().contains(subject(ev)),
        after_event(me, known, ev)[subject(ev)].state == PeerState::Discovered,
{
}

/// An announcement of any other peer, whatever was known of it and in whatever
/// state it is, leaves a record with exactly what was announced: the nickname, the
/// port, the protocol, and the addresses, each as often as it was announced, in
/// ascending order, those of IPv4 first.
pub proof fn law_announcement_is_recorded(
    me: Seq<char>,
    known: Map<Seq<char>, PeerRow>,
    fingerprint: Seq<char>,
    nickname: Seq<char>,
    addrs: Seq<IpAddr>,
    port: u16,
    protocol: Protocol,
)
    requires
        fingerprint != me,
    ensures
        ({
            let ev = EventRow::Seen { fingerprint, nickname, addrs, port, protocol };
            let after = after_event(me, known, ev);
            let p = after[fingerprint];
            &&& after.dom() == known.dom().insert(fingerprint)
            &&& p.fingerprint == fingerprint
            &&& p.nickname == nickname
            &&& p.port == port
            &&& p.protocol == protocol
            &&& p.addrs.to_multiset() == addrs.to_multiset()
            &&& forall|i: int, j: int|
                0 <= i < j < p.addrs.len() ==> match (#[trigger] p.addrs[i], #[trigger] p.addrs[j]) {
                    (IpAddr::V4(x), IpAddr::V4(y)) => x.bits <= y.bits,
                    (IpAddr::V4(_), IpAddr::V6(_)) => true,
                    (IpAddr::V6(_), IpAddr::V4(_)) => false,
                    (IpAddr::V6(x), IpAddr::V6(y)) => x <= y,
                }
        }),
{
    let ev = EventRow::Seen { fingerprint, nickname, addrs, port, protocol };
    let less = order::by_rank::<IpAddr>();
    order::law_sorted(addrs, less);
    let p = after_event(me, known, ev)[fingerprint];
    assert forall|i: int, j: int| 0 <= i < j < p.addrs.len() implies match (
        #[trigger] p.addrs[i],
        #[trigger] p.addrs[j],
    ) {
        (IpAddr::V4(x), IpAddr::V4(y)) => x.bits <= y.bits,
        (IpAddr::V4(_), IpAddr::V6(_)) => true,
        (IpAddr::V6(_), IpAddr::V4(_)) => false,
        (IpAddr::V6(x), IpAddr::V6(y)) => x <= y,
    } by {
        assert(!less(p.addrs[j], p.addrs[i]));
    }
}

/// An announcement wakes a peer that is new or was offline, and leaves the state of
/// any other as it is. Silence turns one that counts as present offline, and no
/// other. A call that was answered makes any peer reachable. A call that failed
/// makes one unreachable unless it is known to be reachable.
pub proof fn law_states_by_event(me: Seq<char>, known: Map<Seq<char>, PeerRow>, ev: EventRow)
    requires
        subject(ev) != me,
    ensures
        ({
            let fp = subject(ev);
            let was = known[fp].state;
            let is = after_event(me, known, ev)[fp].state;
            &&& !known.dom().contains(fp) && ev is Seen ==> is == PeerState::Discovered
            &&& known.dom().contains(fp) && was == PeerState::Offline ==> is == (match ev {
                EventRow::Seen { .. } => PeerState::Discovered,
                EventRow::Lost { .. } => PeerState::Offline,
                EventRow::Registered { .. } => PeerState::Reachable,
                EventRow::Unreachable { .. } => PeerState::Unreachable,
            })
            &&& known.dom().contains(fp) && was == PeerState::Discovered ==> is == (match ev {
                EventRow::Seen { .. } => PeerState::Discovered,
                EventRow::Lost { .. } => PeerState::Offline,
                EventRow::Registered { .. } => PeerState::Reachable,
                EventRow::Unreachable { .. } => PeerState::Unreachable,
            })
            &&& known.dom().contains(fp) && was == PeerState::Reachable ==> is == (match ev {
                EventRow::Seen { .. } => PeerState::Reachable,
                EventRow::Lost { .. } => PeerState::Offline,
                EventRow::Registered { .. } => PeerState::Reachable,
                EventRow::Unreachable { .. } => PeerState::Reachable,
            })
            &&& known.dom().contains(fp) && was == PeerState::Unreachable ==> is == (match ev {
                EventRow::Seen { .. } => PeerState::Unreachable,
                EventRow::Lost { .. } => PeerState::Unreachable,
                EventRow::Registered { .. } => PeerState::Reachable,
                EventRow::Unreachable { .. } => PeerState::Unreachable,
            })
        }),
{
}

/// Only an announcement makes a contact known or tells anything of it but its
/// state: any other event leaves the contacts the same, each with its nickname, its
/// addresses, its port and its protocol.
pub proof fn law_only_announcements_tell(
    me: Seq<char>,
    known: Map<Seq<char>, PeerRow>,
    ev: EventRow,
    fp: Seq<char>,
)
    requires
        ev !is Seen || subject(ev) == me,
    ensures
        after_event(me, known, ev).dom() == known.dom(),
        known.dom().contains(fp) ==> {
            let p = after_event(me, known, ev)[fp];
            &&& p.fingerprint == known[fp].fingerprint
            &&& p.nickname == known[fp].nickname
            &&& p.addrs == known[fp].addrs
            &&& p.port == known[fp].port
            &&& p.protocol == known[fp].protocol
        },
{
    assert(after_event(me, known, ev).dom() =~= known.dom());
}

/// Every peer known from earlier is put in, but for ourselves, and nobody else: one
/// that was not there stands in the list offline, with the nickname, the
/// addresses, the port and the protocol of its first record.
pub proof fn law_seeding_puts_every_peer_in(
    me: Seq<char>,
    known: Map<Seq<char>, PeerRow>,
    peers: Seq<PeerRow>,
    i: int,
    fp: Seq<char>,
)
    ensures
        seeded(me, known, peers).dom().contains(fp) ==> known.dom().contains(fp) || exists|k: int|
            0 <= k < peers.len() && (#[trigger] peers[k]).fingerprint == fp,
        0 <= i < peers.len() && peers[i].fingerprint != me ==> seeded(
            me,
            known,
            peers,
        ).dom().contains(peers[i].fingerprint),
        0 <= i < peers.len() && peers[i].fingerprint != me && !known.dom().contains(
            peers[i].fingerprint,
        ) && (forall|k: int|
            0 <= k < i ==> (#[trigger] peers[k]).fingerprint != peers[i].fingerprint) ==> {
            let p = seeded(me, known, peers)[peers[i].fingerprint];
            &&& p.fingerprint == peers[i].fingerprint
            &&& p.nickname == peers[i].nickname
            &&& p.addrs == peers[i].addrs
            &&& p.port == peers[i].port
            &&& p.protocol == peers[i].protocol
            &&& p.state == PeerState::Offline
        },
    decreases peers.len(),
{
    if peers.len() > 0 {
        let t = peers.drop_last();
        law_seeding_puts_every_peer_in(me, known, t, i, fp);
        law_seeding_puts_every_peer_in(me, known, t, i, peers.last().fingerprint);
        if seeded(me, known, t).dom().contains(fp) && !known.dom().contains(fp) {
            let k = choose|k: int| 0 <= k < t.len() && (#[trigger] t[k]).fingerprint == fp;
            assert(peers[k] == t[k]);
        }
        assert(peers[peers.len() - 1] == peers.last());
        if 0 <= i < t.len() {
            assert(t[i] == peers[i]);
        }
        assert(forall|k: int| 0 <= k < t.len() ==> #[trigger] t[k] == peers[k]);
    }
}

/// Seeding leaves every contact as it was and adds only offline ones.
pub proof fn law_seeding_only_adds_offline(
    me: Seq<char>,
    known: Map<Seq<char>, PeerRow>,
    peers: Seq<PeerRow>,
)
    ensures
        known.dom().subset_of(seeded(me, known, peers).dom()),
        forall|fp: Seq<char>| #[trigger]
            seeded(me, known, peers).dom().contains(fp) ==> if known.dom().contains(fp) {
                seeded(me, known, peers)[fp] == known[fp]
            } else {
                seeded(me, known, peers)[fp].state == PeerState::Offline
            },
    decreases peers.len(),
{
    if peers.len() > 0 {
        law_seeding_only_adds_offline(me, known, peers.drop_last());
        let before = seeded(me, known, peers.drop_last());
        assert forall|fp: Seq<char>| #[trigger]
            seeded(me, known, peers).dom().contains(fp) implies if known.dom().contains(fp) {
            seeded(me, known, peers)[fp] == known[fp]
        } else {
            seeded(me, known, peers)[fp].state == PeerState::Offline
        } by {
            if known.dom().contains(fp) {
                assert(before.dom().contains(fp));
            }
        }
    }
}

/// A listing is settled by the contacts: there is only one.
pub proof fn law_listing_is_unique(
    known: Map<Seq<char>, PeerRow>,
    a: Seq<PeerRow>,
    b: Seq<PeerRow>,
)
    requires
        is_listing(known, a),
        is_listing(known, b),
    ensures
        a == b,
    decreases a.len(),
{
    lemma_listing_prefix(known, a, b, a.len() as int);
    lemma_listing_prefix(known, b, a, b.len() as int);
    assert(a =~= b);
}

/// Whether both lists agree on the first `n` contacts.
proof fn lemma_listing_prefix(
    known: Map<Seq<char>, PeerRow>,
    a: Seq<PeerRow>,
    b: Seq<PeerRow>,
    n: int,
)
    requires
        is_listing(known, a),
        is_listing(known, b),
        0 <= n <= a.len(),
    ensures
        n <= b.len(),
        forall|i: int| 0 <= i < n ==> a[i] == b[i],
    decreases n,
{
    if n > 0 {
        lemma_listing_prefix(known, a, b, n - 1);
        let k = n - 1;
        // Contact k of `a` is somewhere in `b`, and not among the first k.
        assert(known.dom().contains(a[k].fingerprint));
        let j = choose|j: int| 0 <= j < b.len() && (#[trigger] b[j]).fingerprint
            == a[k].fingerprint;
        assert(b[j] == a[k]);
        lemma_peer_row_order(a[k], a[k], a[k]);
        if j < k {
            assert(a[j] == b[j]);
            assert(peer_before(a[j], a[k]));
        }
        if j > k {
            // Contact k of `b` comes before it, and is in `a` at or behind k.
            assert(peer_before(b[k], b[j]));
            assert(known.dom().contains(b[k].fingerprint));
            let i = choose|i: int| 0 <= i < a.len() && (#[trigger] a[i]).fingerprint
                == b[k].fingerprint;
            assert(a[i] == b[k]);
            if i < k {
                assert(b[i] == a[i]);
                assert(peer_before(b[i], b[k]));
                lemma_peer_row_order(b[k], b[k], b[k]);
            } else if i > k {
                assert(peer_before(a[k], a[i]));
                lemma_peer_row_order(a[k], b[k], a[k]);
            }
        }
    }
}

proof fn lemma_peer_row_order(a: PeerRow, b: PeerRow, c: PeerRow)
    ensures
        !peer_before(a, a),
        peer_before(a, b) ==> !peer_before(b, a),
        peer_before(a, b) && peer_before(b, c) ==> peer_before(a, c),
{
    text::lemma_text_order(a.nickname, b.nickname, c.nickname);
    text::lemma_text_order(a.fingerprint, b.fingerprint, c.fingerprint);
    text::lemma_text_order(a.nickname, a.nickname, a.nickname);
    text::lemma_text_order(a.fingerprint, a.fingerprint, a.fingerprint);
}

/// Contacts are listed by nickname: nobody stands behind somebody whose nickname comes later.
pub proof fn law_contacts_are_listed_by_nickname(
    known: Map<Seq<char>, PeerRow>,
    list: Seq<PeerRow>,
    i: int,
    j: int,
)
    requires
        is_listing(known, list),
        0 <= i < j < list.len(),
    ensures
        !text::text_less(list[j].nickname, list[i].nickname),
        list[i].nickname == list[j].nickname ==> text::text_less(
            list[i].fingerprint,
            list[j].fingerprint,
        ),
{
    assert(peer_before(list[i], list[j]));
    text::lemma_text_order(list[i].nickname, list[j].nickname, list[j].nickname);
}

} // verus!
