//! Which peers are spoken to, and how they are told of the program.
//!
//! The scope speaks of the peers' addresses: what is found outside of it is
//! ignored, and nothing outside of it is told anything. A subnet that is in
//! scope as a whole is told by broadcast. In any other, the hosts that are in
//! scope are told one by one, and mDNS is off.

use crate::addr::{IpAddr, Ipv4Addr};
use crate::discovery::mdns;
use crate::net_ifaces;
use crate::net_ifaces::{speaks_for_subnet, IfaceEntry, SendTarget};
use crate::net_scope;
use crate::net_scope::{NetScope, ScopeEntry, MAX_UNICAST_HOSTS};
use crate::order;
use crate::order::{sort_ranked, Ranked};
use crate::roster;
use crate::roster::DiscoveryEvent;
use crate::seqs;
use crate::text;
use crate::text::owned;
use vstd::prelude::*;

verus! {

// ---------------------------------------------------------------------------
// What is found
// ---------------------------------------------------------------------------

/// Those of the addresses that are in scope, in their order.
pub open spec fn in_scope(entries: Seq<ScopeEntry>, addrs: Seq<IpAddr>) -> Seq<IpAddr> {
    addrs.filter(|a: IpAddr| net_scope::ip_allowed(entries, a))
}

/// What is left of an event: of a peer that was seen, the addresses in scope.
/// A peer that has none in a scope that restricts anything was not seen.
pub open spec fn admitted(entries: Seq<ScopeEntry>, ev: roster::EventRow) -> Option<
    roster::EventRow,
> {
    match ev {
        roster::EventRow::Seen { fingerprint, nickname, addrs, port, protocol } => {
            let near = in_scope(entries, addrs);
            if entries.len() > 0 && near.len() == 0 {
                None
            } else {
                Some(roster::EventRow::Seen { fingerprint, nickname, addrs: near, port, protocol })
            }
        },
        _ => Some(ev),
    }
}

/// Those of the addresses that are in scope, in their order.
pub fn allowed_addrs(scope: &NetScope, addrs: &Vec<IpAddr>) -> (r: Vec<IpAddr>)
    ensures
        r@ == in_scope(scope@, addrs@),
{
    let ghost p = |a: IpAddr| net_scope::ip_allowed(scope@, a);
    let mut out: Vec<IpAddr> = Vec::new();
    let mut i: usize = 0;
    proof {
        reveal(Seq::filter);
        assert(addrs@.take(0).filter(p) =~= Seq::<IpAddr>::empty());
    }
    while i < addrs.len()
        invariant
            i <= addrs.len(),
            p == (|a: IpAddr| net_scope::ip_allowed(scope@, a)),
            out@ == addrs@.take(i as int).filter(p),
        decreases addrs.len() - i,
    {
        let a: IpAddr = addrs[i];
        proof {
            reveal(Seq::filter);
            assert(addrs@.take(i + 1).drop_last() =~= addrs@.take(i as int));
            assert(addrs@.take(i + 1).last() == a);
        }
        if scope.allows(a) {
            out.push(a);
        }
        i = i + 1;
    }
    assert(addrs@.take(i as int) =~= addrs@);
    out
}

/// What is left of an event.
pub fn let_through(scope: &NetScope, ev: DiscoveryEvent) -> (r: Option<DiscoveryEvent>)
    ensures
        mdns::event_row(r) == admitted(scope@, ev@),
{
    match ev {
        DiscoveryEvent::Seen { fingerprint, nickname, addrs, port, protocol } => {
            let near = allowed_addrs(scope, &addrs);
            if !scope.is_unrestricted() && near.len() == 0 {
                None
            } else {
                Some(DiscoveryEvent::Seen { fingerprint, nickname, addrs: near, port, protocol })
            }
        },
        other => Some(other),
    }
}

proof fn lemma_filter_of_passed<A>(s: Seq<A>, p: spec_fn(A) -> bool)
    requires
        forall|i: int| 0 <= i < s.len() ==> p(#[trigger] s[i]),
    ensures
        s.filter(p) == s,
    decreases s.len(),
{
    reveal(Seq::filter);
    if s.len() > 0 {
        assert(p(s[s.len() - 1]));
        assert forall|i: int| 0 <= i < s.drop_last().len() implies p(
            #[trigger] s.drop_last()[i],
        ) by {
            assert(p(s[i]));
        }
        lemma_filter_of_passed(s.drop_last(), p);
        assert(s =~= s.drop_last().push(s.last()));
    } else {
        assert(s.filter(p) =~= s);
    }
}

/// Of what is admitted every address is in scope, and letting it through again changes
/// nothing.
pub proof fn law_admitted_is_in_scope(entries: Seq<ScopeEntry>, ev: roster::EventRow)
    ensures
        admitted(entries, ev) matches Some(e) ==> {
            &&& e matches roster::EventRow::Seen { addrs, .. } ==> forall|i: int|
                0 <= i < addrs.len() ==> net_scope::ip_allowed(entries, #[trigger] addrs[i])
            &&& admitted(entries, e) == Some(e)
            &&& roster::subject(e) == roster::subject(ev)
        },
{
    if let roster::EventRow::Seen { addrs, .. } = ev {
        let p = |a: IpAddr| net_scope::ip_allowed(entries, a);
        let near = in_scope(entries, addrs);
        assert forall|i: int| 0 <= i < near.len() implies p(#[trigger] near[i]) by {
            assert(near.contains(near[i]));
            seqs::lemma_filter_contains(addrs, p, near[i]);
        }
        lemma_filter_of_passed(near, p);
    }
}

/// A peer that was seen outside of the scope alone is ignored; any other event
/// goes through a scope that does not restrict as it is.
pub proof fn law_outside_is_ignored(entries: Seq<ScopeEntry>, ev: roster::EventRow)
    ensures
        ev matches roster::EventRow::Seen { addrs, .. } ==> entries.len() > 0 && (forall|i: int|
            0 <= i < addrs.len() ==> !net_scope::ip_allowed(entries, #[trigger] addrs[i]))
            ==> admitted(entries, ev) is None,
        entries.len() == 0 ==> admitted(entries, ev) == Some(ev),
{
    if let roster::EventRow::Seen { addrs, .. } = ev {
        let p = |a: IpAddr| net_scope::ip_allowed(entries, a);
        let near = in_scope(entries, addrs);
        if near.len() > 0 {
            assert(near.contains(near[0]));
            seqs::lemma_filter_contains(addrs, p, near[0]);
            let k = choose|k: int| 0 <= k < addrs.len() && addrs[k] == near[0];
            assert(net_scope::ip_allowed(entries, addrs[k]));
        }
        if entries.len() == 0 {
            lemma_filter_of_passed(addrs, p);
        }
    }
}

// ---------------------------------------------------------------------------
// Subnets
// ---------------------------------------------------------------------------

/// A subnet that is told of the program, by the interface that speaks for it.
#[derive(Debug, Clone, Copy, PartialEq, Eq, Structural)]
pub struct Subnet {
    pub iface_ip: Ipv4Addr,
    pub netmask: Ipv4Addr,
    pub broadcast: Ipv4Addr,
}

impl Subnet {
    /// Where a broadcast into the subnet goes.
    pub open spec fn target(self) -> SendTarget {
        SendTarget { iface_ip: self.iface_ip, broadcast: self.broadcast }
    }
}

impl Ranked for Subnet {
    open spec fn before(self, other: Self) -> bool {
        self.target().before(other.target())
    }

    fn comes_before(&self, other: &Self) -> (r: bool) {
        self.iface_ip.bits < other.iface_ip.bits || (self.iface_ip.bits == other.iface_ip.bits
            && self.broadcast.bits < other.broadcast.bits)
    }
}

/// The subnet of an interface.
pub open spec fn subnet_of(r: net_ifaces::IfaceRow) -> Subnet {
    Subnet { iface_ip: r.ip, netmask: r.netmask, broadcast: r.broadcast }
}

/// The subnets of those of the first `n` interfaces that speak for one.
pub open spec fn subnets_upto(rows: Seq<net_ifaces::IfaceRow>, n: int) -> Seq<Subnet>
    decreases n,
{
    if n <= 0 {
        Seq::empty()
    } else if net_ifaces::represents(rows, n - 1) {
        subnets_upto(rows, n - 1).push(subnet_of(rows[n - 1]))
    } else {
        subnets_upto(rows, n - 1)
    }
}

/// The subnets of the interfaces, each once, in the order of their targets.
pub open spec fn subnets_of(rows: Seq<net_ifaces::IfaceRow>) -> Seq<Subnet> {
    order::sorted(subnets_upto(rows, rows.len() as int), order::by_rank::<Subnet>())
}

/// The subnets of the interfaces, each once, in the order of their targets.
pub fn subnets(entries: &[IfaceEntry]) -> (r: Vec<Subnet>)
    ensures
        r@ == subnets_of(net_ifaces::rows(entries@)),
{
    let mut v: Vec<Subnet> = Vec::new();
    let mut i: usize = 0;
    while i < entries.len()
        invariant
            i <= entries.len(),
            v@ == subnets_upto(net_ifaces::rows(entries@), i as int),
        decreases entries.len() - i,
    {
        if speaks_for_subnet(entries, i) {
            v.push(
                Subnet {
                    iface_ip: entries[i].ip,
                    netmask: entries[i].netmask,
                    broadcast: entries[i].broadcast,
                },
            );
            proof {
                assert(net_ifaces::rows(entries@)[i as int] == entries@[i as int]@);
            }
        }
        i = i + 1;
    }
    sort_ranked(v)
}

proof fn lemma_subnets_are_targets(rows: Seq<net_ifaces::IfaceRow>, n: int)
    requires
        0 <= n <= rows.len(),
    ensures
        subnets_upto(rows, n).map_values(|s: Subnet| s.target()) == net_ifaces::targets_upto(
            rows,
            n,
        ),
    decreases n,
{
    if n > 0 {
        lemma_subnets_are_targets(rows, n - 1);
    }
    assert(subnets_upto(rows, n).map_values(|s: Subnet| s.target()) =~= net_ifaces::targets_upto(
        rows,
        n,
    ));
}

/// A broadcast into each of the subnets, one after the other, reaches each of the
/// targets in their order, and no other.
pub proof fn law_subnets_are_the_targets(rows: Seq<net_ifaces::IfaceRow>)
    ensures
        subnets_of(rows).map_values(|s: Subnet| s.target()) == net_ifaces::targets_of(rows),
{
    let listed = subnets_upto(rows, rows.len() as int);
    lemma_subnets_are_targets(rows, rows.len() as int);
    order::lemma_sorted_map(
        listed,
        |s: Subnet| s.target(),
        order::by_rank::<Subnet>(),
        order::by_rank::<SendTarget>(),
    );
}

// ---------------------------------------------------------------------------
// Telling
// ---------------------------------------------------------------------------

/// How a subnet is told.
#[derive(Debug, Clone, PartialEq, Eq)]
pub enum Plan {
    /// All at once.
    Broadcast,
    /// These hosts, one by one.
    Unicast(Vec<Ipv4Addr>),
    /// Not at all.
    Silent,
}

/// Whether a plan is right for a subnet: broadcast where all of it is in scope,
/// else the hosts in scope other than the own ones, up to a limit from the
/// lowest on, and silence where there is none.
pub open spec fn is_plan(
    p: Plan,
    entries: Seq<ScopeEntry>,
    s: Subnet,
    own: Seq<Ipv4Addr>,
) -> bool {
    let wanted = net_scope::wanted_within(entries, s.iface_ip, s.netmask, own);
    let covered = net_scope::subnet_covered(entries, s.iface_ip, s.netmask);
    match p {
        Plan::Broadcast => covered,
        Plan::Unicast(hosts) => !covered && hosts@.len() > 0 && exists|truncated: bool| #[trigger]
            net_scope::lowest_wanted(hosts@, truncated, MAX_UNICAST_HOSTS as nat, wanted),
        Plan::Silent => !covered && forall|x: u32| !#[trigger] wanted(x),
    }
}

/// How a subnet is told.
pub fn plan_subnet(scope: &NetScope, s: Subnet, own: &[Ipv4Addr]) -> (r: Plan)
    ensures
        is_plan(r, scope@, s, own@),
{
    if scope.covers_subnet(s.iface_ip, s.netmask) {
        return Plan::Broadcast;
    }
    let list = scope.hosts_within(s.iface_ip, s.netmask, own, MAX_UNICAST_HOSTS);
    let ghost wanted = net_scope::wanted_within(scope@, s.iface_ip, s.netmask, own@);
    proof {
        assert(scope@.len() > 0) by {
            if scope@.len() == 0 {
                assert(net_scope::subnet_covered(scope@, s.iface_ip, s.netmask));
            }
        }
        assert(net_scope::lowest_wanted(
            list.hosts@,
            list.truncated,
            MAX_UNICAST_HOSTS as nat,
            wanted,
        ));
    }
    if list.hosts.len() == 0 {
        proof {
            assert forall|x: u32| !#[trigger] wanted(x) by {
                if wanted(x) {
                    assert(!list.hosts@.contains(Ipv4Addr { bits: x }));
                }
            }
        }
        Plan::Silent
    } else {
        let ghost truncated = list.truncated;
        let r = Plan::Unicast(list.hosts);
        assert(net_scope::lowest_wanted(r->Unicast_0@, truncated, MAX_UNICAST_HOSTS as nat, wanted));
        r
    }
}

/// Whether these are the plans for the subnets of the interfaces.
pub open spec fn are_plans(
    v: Seq<(Subnet, Plan)>,
    entries: Seq<ScopeEntry>,
    rows: Seq<net_ifaces::IfaceRow>,
) -> bool {
    &&& v.map_values(|p: (Subnet, Plan)| p.0) == subnets_of(rows)
    &&& forall|i: int|
        0 <= i < v.len() ==> is_plan(
            (#[trigger] v[i]).1,
            entries,
            v[i].0,
            net_ifaces::ips_of(rows),
        )
}

fn own_ips(entries: &[IfaceEntry]) -> (r: Vec<Ipv4Addr>)
    ensures
        r@ == net_ifaces::ips_of(net_ifaces::rows(entries@)),
{
    let mut r: Vec<Ipv4Addr> = Vec::new();
    let mut i: usize = 0;
    while i < entries.len()
        invariant
            i <= entries.len(),
            r@ =~= net_ifaces::ips_of(net_ifaces::rows(entries@)).take(i as int),
        decreases entries.len() - i,
    {
        r.push(entries[i].ip);
        i = i + 1;
    }
    assert(r@ =~= net_ifaces::ips_of(net_ifaces::rows(entries@)));
    r
}

/// How each of the subnets is told.
pub fn announce_plans(scope: &NetScope, entries: &[IfaceEntry]) -> (r: Vec<(Subnet, Plan)>)
    ensures
        are_plans(r@, scope@, net_ifaces::rows(entries@)),
{
    let own = own_ips(entries);
    let list = subnets(entries);
    let mut r: Vec<(Subnet, Plan)> = Vec::new();
    let mut i: usize = 0;
    while i < list.len()
        invariant
            i <= list.len(),
            r@.len() == i,
            own@ == net_ifaces::ips_of(net_ifaces::rows(entries@)),
            forall|k: int|
                0 <= k < i ==> (#[trigger] r@[k]).0 == list@[k] && is_plan(
                    r@[k].1,
                    scope@,
                    r@[k].0,
                    own@,
                ),
        decreases list.len() - i,
    {
        let s: Subnet = list[i];
        r.push((s, plan_subnet(scope, s, own.as_slice())));
        i = i + 1;
    }
    assert(r@.map_values(|p: (Subnet, Plan)| p.0) =~= list@);
    r
}

/// The subnets of the interfaces by address and mask.
pub open spec fn own_subnets(rows: Seq<net_ifaces::IfaceRow>) -> Seq<(Ipv4Addr, Ipv4Addr)> {
    rows.map_values(|r: net_ifaces::IfaceRow| (r.ip, r.netmask))
}

/// Whether these are the hosts in scope that are in no subnet of an interface,
/// up to a limit from the lowest on.
pub open spec fn are_far(
    hosts: Seq<Ipv4Addr>,
    entries: Seq<ScopeEntry>,
    rows: Seq<net_ifaces::IfaceRow>,
) -> bool {
    exists|truncated: bool| #[trigger]
        net_scope::lowest_wanted(
            hosts,
            truncated,
            MAX_UNICAST_HOSTS as nat,
            net_scope::wanted_outside(entries, own_subnets(rows), MAX_UNICAST_HOSTS as nat),
        )
}

/// The hosts in scope that are in no subnet of an interface. They are told one by
/// one.
pub fn far_hosts(scope: &NetScope, entries: &[IfaceEntry]) -> (r: Vec<Ipv4Addr>)
    ensures
        are_far(r@, scope@, net_ifaces::rows(entries@)),
        scope@.len() == 0 ==> r@.len() == 0,
{
    let mut own: Vec<(Ipv4Addr, Ipv4Addr)> = Vec::new();
    let mut i: usize = 0;
    while i < entries.len()
        invariant
            i <= entries.len(),
            own@ =~= own_subnets(net_ifaces::rows(entries@)).take(i as int),
        decreases entries.len() - i,
    {
        own.push((entries[i].ip, entries[i].netmask));
        i = i + 1;
    }
    assert(own@ =~= own_subnets(net_ifaces::rows(entries@)));
    let list = scope.hosts_outside(own.as_slice(), MAX_UNICAST_HOSTS);
    proof {
        assert(net_scope::lowest_wanted(
            list.hosts@,
            list.truncated,
            MAX_UNICAST_HOSTS as nat,
            net_scope::wanted_outside(
                scope@,
                own_subnets(net_ifaces::rows(entries@)),
                MAX_UNICAST_HOSTS as nat,
            ),
        ));
    }
    list.hosts
}

/// The addresses that a plan for a subnet tells.
pub open spec fn told_by(s: Subnet, p: Plan) -> Seq<Ipv4Addr> {
    match p {
        Plan::Broadcast => seq![s.broadcast],
        Plan::Unicast(hosts) => hosts@,
        Plan::Silent => Seq::empty(),
    }
}

/// The addresses that the plans tell, one plan after the other.
pub open spec fn told_by_all(v: Seq<(Subnet, Plan)>) -> Seq<Ipv4Addr>
    decreases v.len(),
{
    if v.len() == 0 {
        Seq::empty()
    } else {
        told_by_all(v.drop_last()) + told_by(v.last().0, v.last().1)
    }
}

/// Whether these are the addresses that are told: those of the plans, then the
/// hosts outside of the own subnets.
pub open spec fn are_told(
    list: Seq<Ipv4Addr>,
    entries: Seq<ScopeEntry>,
    rows: Seq<net_ifaces::IfaceRow>,
) -> bool {
    exists|v: Seq<(Subnet, Plan)>, far: Seq<Ipv4Addr>|
        #![trigger are_plans(v, entries, rows), are_far(far, entries, rows)]
        are_plans(v, entries, rows) && are_far(far, entries, rows) && list == told_by_all(v) + far
}

fn push_told(out: &mut Vec<Ipv4Addr>, s: Subnet, p: &Plan)
    ensures
        final(out)@ == old(out)@ + told_by(s, *p),
{
    let ghost given = out@;
    match p {
        Plan::Broadcast => {
            out.push(s.broadcast);
            assert(out@ =~= given + seq![s.broadcast]);
        },
        Plan::Unicast(hosts) => {
            let mut i: usize = 0;
            while i < hosts.len()
                invariant
                    i <= hosts.len(),
                    out@ == given + hosts@.take(i as int),
                decreases hosts.len() - i,
            {
                out.push(hosts[i]);
                proof {
                    assert(out@ =~= given + hosts@.take(i + 1));
                }
                i = i + 1;
            }
            assert(hosts@.take(i as int) =~= hosts@);
        },
        Plan::Silent => {
            assert(out@ =~= given + Seq::<Ipv4Addr>::empty());
        },
    }
}

/// The addresses that are told.
pub fn told_addrs(scope: &NetScope, entries: &[IfaceEntry]) -> (r: Vec<Ipv4Addr>)
    ensures
        are_told(r@, scope@, net_ifaces::rows(entries@)),
{
    let plans = announce_plans(scope, entries);
    let far = far_hosts(scope, entries);
    let mut r: Vec<Ipv4Addr> = Vec::new();
    let mut i: usize = 0;
    proof {
        assert(plans@.take(0) =~= Seq::<(Subnet, Plan)>::empty());
        assert(r@ =~= told_by_all(plans@.take(0)));
    }
    while i < plans.len()
        invariant
            i <= plans.len(),
            r@ == told_by_all(plans@.take(i as int)),
        decreases plans.len() - i,
    {
        let p: &(Subnet, Plan) = &plans[i];
        push_told(&mut r, p.0, &p.1);
        proof {
            assert(plans@.take(i + 1).drop_last() =~= plans@.take(i as int));
            assert(plans@.take(i + 1).last() == plans@[i as int]);
        }
        i = i + 1;
    }
    let ghost near = r@;
    assert(plans@.take(i as int) =~= plans@);
    let mut k: usize = 0;
    while k < far.len()
        invariant
            k <= far.len(),
            r@ == near + far@.take(k as int),
        decreases far.len() - k,
    {
        r.push(far[k]);
        proof {
            assert(r@ =~= near + far@.take(k + 1));
        }
        k = k + 1;
    }
    proof {
        assert(far@.take(k as int) =~= far@);
        assert(r@ == told_by_all(plans@) + far@);
    }
    r
}

/// Nobody outside of the scope is told: a broadcast goes only to a subnet that is
/// in scope as a whole, and a host that is told by itself is in scope.
pub proof fn law_nobody_outside_is_told(
    p: Plan,
    entries: Seq<ScopeEntry>,
    s: Subnet,
    own: Seq<Ipv4Addr>,
    far: Seq<Ipv4Addr>,
    rows: Seq<net_ifaces::IfaceRow>,
    x: Ipv4Addr,
)
    requires
        is_plan(p, entries, s, own),
        are_far(far, entries, rows),
    ensures
        p is Broadcast && net_scope::network_of(s.iface_ip.bits, s.netmask.bits) <= x.bits
            <= net_scope::broadcast_of(s.iface_ip.bits, s.netmask.bits)
            ==> net_scope::scope_allows(entries, x.bits),
        p matches Plan::Unicast(hosts) ==> hosts@.contains(x) ==> net_scope::scope_allows(
            entries,
            x.bits,
        ) && !own.contains(x),
        far.contains(x) ==> net_scope::scope_allows(entries, x.bits),
{
    if let Plan::Unicast(hosts) = p {
        if hosts@.contains(x) {
            let wanted = net_scope::wanted_within(entries, s.iface_ip, s.netmask, own);
            let k = choose|k: int| 0 <= k < hosts@.len() && hosts@[k] == x;
            assert(wanted(hosts@[k].bits));
            assert(Ipv4Addr { bits: x.bits } == x);
        }
    }
    if far.contains(x) {
        let wanted = net_scope::wanted_outside(
            entries,
            own_subnets(rows),
            MAX_UNICAST_HOSTS as nat,
        );
        let k = choose|k: int| 0 <= k < far.len() && far[k] == x;
        assert(wanted(far[k].bits));
        let e = choose|e: int|
            0 <= e < entries.len() && (#[trigger] entries[e]).count() <= MAX_UNICAST_HOSTS
                && entries[e].holds(x.bits);
        assert(entries[e].holds(x.bits));
    }
}

/// A scope that does not restrict leaves every subnet to a broadcast.
pub proof fn law_unrestricted_is_broadcast(p: Plan, s: Subnet, own: Seq<Ipv4Addr>)
    requires
        is_plan(p, Seq::empty(), s, own),
    ensures
        p is Broadcast,
        told_by(s, p) == seq![s.broadcast],
{
    assert(net_scope::subnet_covered(Seq::empty(), s.iface_ip, s.netmask));
}

// ---------------------------------------------------------------------------
// mDNS
// ---------------------------------------------------------------------------

/// The names of the interfaces whose subnets are not in scope as a whole.
pub open spec fn uncovered(rows: Seq<net_ifaces::IfaceRow>, entries: Seq<ScopeEntry>) -> Seq<
    Seq<char>,
>
    decreases rows.len(),
{
    if rows.len() == 0 {
        Seq::empty()
    } else {
        let before = uncovered(rows.drop_last(), entries);
        if net_scope::subnet_covered(entries, rows.last().ip, rows.last().netmask) {
            before
        } else {
            before.push(rows.last().name)
        }
    }
}

/// The names of the interfaces that mDNS stays off: those that the user has
/// excluded, and those whose subnets are not in scope as a whole.
pub fn desired_mdns_disabled(entries: &[IfaceEntry], excluded: &Vec<String>, scope: &NetScope) -> (r:
    Vec<String>)
    ensures
        text::texts(r@) == text::texts(excluded@) + uncovered(net_ifaces::rows(entries@), scope@),
{
    let mut r: Vec<String> = text::copy_texts(excluded);
    let ghost given = text::texts(excluded@);
    let ghost all = net_ifaces::rows(entries@);
    let mut i: usize = 0;
    proof {
        assert(all.take(0) =~= Seq::<net_ifaces::IfaceRow>::empty());
        assert(text::texts(r@) =~= given + uncovered(all.take(0), scope@));
    }
    while i < entries.len()
        invariant
            i <= entries.len(),
            all == net_ifaces::rows(entries@),
            text::texts(r@) == given + uncovered(all.take(i as int), scope@),
        decreases entries.len() - i,
    {
        let e: &IfaceEntry = &entries[i];
        let ghost before = r@;
        proof {
            assert(all.take(i + 1).drop_last() =~= all.take(i as int));
            assert(all.take(i + 1).last() == e@);
        }
        if !scope.covers_subnet(e.ip, e.netmask) {
            r.push(owned(e.name.as_str()));
            proof {
                assert(text::texts(r@) =~= text::texts(before).push(e@.name));
                assert(text::texts(r@) =~= given + uncovered(all.take(i + 1), scope@));
            }
        }
        i = i + 1;
    }
    assert(all.take(i as int) =~= all);
    r
}

/// Where the scope does not restrict, mDNS stays off the excluded interfaces
/// alone.
pub proof fn law_unrestricted_keeps_mdns(rows: Seq<net_ifaces::IfaceRow>)
    ensures
        uncovered(rows, Seq::empty()).len() == 0,
    decreases rows.len(),
{
    if rows.len() > 0 {
        law_unrestricted_keeps_mdns(rows.drop_last());
        assert(net_scope::subnet_covered(Seq::empty(), rows.last().ip, rows.last().netmask));
    }
}

/// mDNS is off on an interface exactly if its subnet is not in scope as a whole,
/// unless the user has excluded it.
pub proof fn law_mdns_is_off_where_not_covered(
    rows: Seq<net_ifaces::IfaceRow>,
    entries: Seq<ScopeEntry>,
    name: Seq<char>,
)
    ensures
        uncovered(rows, entries).contains(name) <==> exists|i: int|
            0 <= i < rows.len() && (#[trigger] rows[i]).name == name && !net_scope::subnet_covered(
                entries,
                rows[i].ip,
                rows[i].netmask,
            ),
    decreases rows.len(),
{
    if rows.len() > 0 {
        let t = rows.drop_last();
        law_mdns_is_off_where_not_covered(t, entries, name);
        let before = uncovered(t, entries);
        let all = uncovered(rows, entries);
        if all.contains(name) {
            let k = choose|k: int| 0 <= k < all.len() && all[k] == name;
            if k < before.len() {
                assert(before[k] == name);
                assert(before.contains(name));
                let i = choose|i: int|
                    0 <= i < t.len() && (#[trigger] t[i]).name == name
                        && !net_scope::subnet_covered(entries, t[i].ip, t[i].netmask);
                assert(rows[i] == t[i]);
            } else {
                assert(rows[rows.len() - 1].name == name);
            }
        }
        if exists|i: int|
            0 <= i < rows.len() && (#[trigger] rows[i]).name == name && !net_scope::subnet_covered(
                entries,
                rows[i].ip,
                rows[i].netmask,
            ) {
            let i = choose|i: int|
                0 <= i < rows.len() && (#[trigger] rows[i]).name == name
                    && !net_scope::subnet_covered(entries, rows[i].ip, rows[i].netmask);
            if i < t.len() {
                assert(t[i] == rows[i]);
                let k = choose|k: int| 0 <= k < before.len() && before[k] == name;
                assert(all[k] == name);
            } else {
                assert(all[all.len() - 1] == name);
            }
        }
    }
}

/// Of an event that was let through nothing is lost but the addresses outside of the scope: a
/// peer that was seen keeps its nickname, its port and its protocol, and each of its
/// addresses in scope. An event of any other kind is let through as it is.
pub proof fn law_let_through_keeps_what_is_in_scope(
    entries: Seq<ScopeEntry>,
    fingerprint: Seq<char>,
    nickname: Seq<char>,
    addrs: Seq<IpAddr>,
    port: u16,
    protocol: roster::Protocol,
    ev: roster::EventRow,
    k: int,
)
    ensures
        !(ev is Seen) ==> admitted(entries, ev) == Some(ev),
        0 <= k < addrs.len() && net_scope::ip_allowed(entries, addrs[k]) ==> {
            let seen = roster::EventRow::Seen { fingerprint, nickname, addrs, port, protocol };
            &&& admitted(entries, seen) matches Some(roster::EventRow::Seen {
                fingerprint: f,
                nickname: n,
                addrs: a,
                port: p,
                protocol: q,
            }) && f == fingerprint && n == nickname && p == port && q == protocol && a.contains(
                addrs[k],
            )
        },
        forall|x: IpAddr| #[trigger]
            in_scope(entries, addrs).contains(x) <==> addrs.contains(x) && net_scope::ip_allowed(
                entries,
                x,
            ),
{
    let p = |a: IpAddr| net_scope::ip_allowed(entries, a);
    let near = in_scope(entries, addrs);
    assert(near == addrs.filter(p));
    assert forall|x: IpAddr| #[trigger] near.contains(x) <==> addrs.contains(x)
        && net_scope::ip_allowed(entries, x) by {
        crate::seqs::lemma_filter_contains(addrs, p, x);
    }
    if 0 <= k < addrs.len() && net_scope::ip_allowed(entries, addrs[k]) {
        assert(addrs.contains(addrs[k]));
        assert(near.contains(addrs[k]));
    }
}

/// Everybody in scope is told: a subnet that is in scope as a whole by a broadcast, and of any
/// other each host that lies in some entry of the scope and is not our own, unless the
/// limit is reached.
pub proof fn law_everybody_in_scope_is_told(
    p: Plan,
    entries: Seq<ScopeEntry>,
    s: Subnet,
    own: Seq<Ipv4Addr>,
    x: Ipv4Addr,
    e: int,
)
    requires
        is_plan(p, entries, s, own),
        0 <= e < entries.len(),
        entries[e].low() <= x.bits <= entries[e].high(),
        net_scope::network_of(s.iface_ip.bits, s.netmask.bits) < x.bits < net_scope::broadcast_of(
            s.iface_ip.bits,
            s.netmask.bits,
        ),
        !own.contains(x),
    ensures
        net_scope::subnet_covered(entries, s.iface_ip, s.netmask) ==> told_by(s, p) == seq![
            s.broadcast,
        ],
        !net_scope::subnet_covered(entries, s.iface_ip, s.netmask) ==> told_by(s, p).contains(x)
            || told_by(s, p).len() == 1024,
{
    let wanted = net_scope::wanted_within(entries, s.iface_ip, s.netmask, own);
    assert(entries[e].holds(x.bits));
    assert(Ipv4Addr { bits: x.bits } == x);
    assert(wanted(x.bits));
}

/// A host that lies in an entry of at most so many addresses as are told at once, and in the
/// subnet of no interface, is told by itself, unless the limit is reached.
pub proof fn law_far_host_is_told(
    far: Seq<Ipv4Addr>,
    entries: Seq<ScopeEntry>,
    rows: Seq<net_ifaces::IfaceRow>,
    x: Ipv4Addr,
    e: int,
)
    requires
        are_far(far, entries, rows),
        0 <= e < entries.len(),
        entries[e].low() <= x.bits <= entries[e].high(),
        entries[e].high() - entries[e].low() < 1024,
        forall|i: int|
            0 <= i < rows.len() ==> !(net_scope::network_of(
                (#[trigger] rows[i]).ip.bits,
                rows[i].netmask.bits,
            ) <= x.bits <= net_scope::broadcast_of(rows[i].ip.bits, rows[i].netmask.bits)),
    ensures
        far.contains(x) || far.len() == 1024,
{
    let own = own_subnets(rows);
    let wanted = net_scope::wanted_outside(entries, own, MAX_UNICAST_HOSTS as nat);
    assert(entries[e].holds(x.bits) && entries[e].count() <= MAX_UNICAST_HOSTS);
    assert(!net_scope::in_some_subnet(own, x.bits)) by {
        if net_scope::in_some_subnet(own, x.bits) {
            let i = choose|i: int|
                0 <= i < own.len() && net_scope::network_of(
                    (#[trigger] own[i]).0.bits,
                    own[i].1.bits,
                ) <= x.bits <= net_scope::broadcast_of(own[i].0.bits, own[i].1.bits);
            assert(own[i] == (rows[i].ip, rows[i].netmask));
        }
    }
    assert(Ipv4Addr { bits: x.bits } == x);
    assert(wanted(x.bits));
}

/// All that a plan tells is told, whatever the other plans are, and nothing else is.
pub proof fn law_every_plan_is_told(v: Seq<(Subnet, Plan)>, x: Ipv4Addr)
    ensures
        told_by_all(v).contains(x) <==> exists|i: int|
            0 <= i < v.len() && told_by((#[trigger] v[i]).0, v[i].1).contains(x),
    decreases v.len(),
{
    let all = told_by_all(v);
    if v.len() > 0 {
        let t = v.drop_last();
        let front = told_by_all(t);
        let back = told_by(v.last().0, v.last().1);
        law_every_plan_is_told(t, x);
        assert(forall|i: int| 0 <= i < t.len() ==> #[trigger] t[i] == v[i]);
        assert(v[v.len() - 1] == v.last());
        if all.contains(x) {
            let k = choose|k: int| 0 <= k < all.len() && all[k] == x;
            if k < front.len() {
                assert(front[k] == x);
                let i = choose|i: int|
                    0 <= i < t.len() && told_by((#[trigger] t[i]).0, t[i].1).contains(x);
                assert(v[i] == t[i]);
            } else {
                assert(back[k - front.len()] == x);
                assert(told_by(v[v.len() - 1].0, v[v.len() - 1].1).contains(x));
            }
        }
        if exists|i: int| 0 <= i < v.len() && told_by((#[trigger] v[i]).0, v[i].1).contains(x) {
            let i = choose|i: int|
                0 <= i < v.len() && told_by((#[trigger] v[i]).0, v[i].1).contains(x);
            if i < t.len() {
                assert(t[i] == v[i]);
                let k = choose|k: int| 0 <= k < front.len() && front[k] == x;
                assert(all[k] == x);
            } else {
                let k = choose|k: int| 0 <= k < back.len() && back[k] == x;
                assert(all[front.len() + k] == x);
            }
        }
    }
}

proof fn lemma_subnet_upto(rows: Seq<net_ifaces::IfaceRow>, n: int, s: Subnet)
    requires
        0 <= n <= rows.len(),
        subnets_upto(rows, n).contains(s),
    ensures
        exists|i: int|
            0 <= i < n && (#[trigger] rows[i]).ip == s.iface_ip && rows[i].netmask == s.netmask
                && rows[i].broadcast == s.broadcast,
    decreases n,
{
    let all = subnets_upto(rows, n);
    let k = choose|k: int| 0 <= k < all.len() && all[k] == s;
    if n > 0 {
        let before = subnets_upto(rows, n - 1);
        if k < before.len() {
            assert(before[k] == s);
            assert(before.contains(s));
            lemma_subnet_upto(rows, n - 1, s);
        } else {
            assert(rows[n - 1].ip == s.iface_ip);
        }
    }
}

/// Every subnet into which is announced is that of an interface in use, with its address, its
/// mask and its broadcast address.
pub proof fn law_subnet_is_of_an_interface(rows: Seq<net_ifaces::IfaceRow>, s: Subnet)
    requires
        subnets_of(rows).contains(s),
    ensures
        exists|i: int|
            0 <= i < rows.len() && (#[trigger] rows[i]).ip == s.iface_ip && rows[i].netmask
                == s.netmask && rows[i].broadcast == s.broadcast,
{
    let less = order::by_rank::<Subnet>();
    let given = subnets_upto(rows, rows.len() as int);
    assert(order::is_weak_order(less));
    order::law_sorted(given, less);
    crate::seqs::lemma_same_members(given, subnets_of(rows));
    let k = choose|k: int| 0 <= k < subnets_of(rows).len() && subnets_of(rows)[k] == s;
    assert(given.contains(subnets_of(rows)[k]));
    lemma_subnet_upto(rows, rows.len() as int, s);
}

/// Addresses are judged one by one: what is left of two lists together is what is left of the
/// one and then what is left of the other, and a single address is left exactly if it is in
/// scope.
pub proof fn law_addresses_are_judged_one_by_one(
    entries: Seq<ScopeEntry>,
    a: Seq<IpAddr>,
    b: Seq<IpAddr>,
    x: IpAddr,
)
    ensures
        in_scope(entries, a + b) == in_scope(entries, a) + in_scope(entries, b),
        net_scope::ip_allowed(entries, x) ==> in_scope(entries, seq![x]) == seq![x],
        !net_scope::ip_allowed(entries, x) ==> in_scope(entries, seq![x]).len() == 0,
{
    let p = |y: IpAddr| net_scope::ip_allowed(entries, y);
    Seq::filter_distributes_over_add(a, b, p);
    let one = seq![x];
    if net_scope::ip_allowed(entries, x) {
        crate::seqs::lemma_filter_all(one, p);
    } else {
        crate::seqs::lemma_filter_none(one, p);
    }
}

} // verus!
