//! The network interfaces that the program uses.
//!
//! The system's interfaces are filtered into a snapshot: no loopback, IPv4
//! only, and none that the user has excluded by name. Everything here is
//! computed from values; listing the interfaces is left to the caller.

use crate::addr;
use crate::addr::{IpAddr, Ipv4Addr};
use crate::net_scope;
use crate::order;
use crate::order::{sort_ranked, Ranked};
use crate::seqs;
use crate::text;
use crate::text::{contains_str, copy_texts, less_text, same_text, to_ascii_lowercase};
use vstd::prelude::*;

verus! {

/// An interface as the system lists it.
#[derive(Debug, Clone, PartialEq, Eq)]
pub struct Interface {
    pub name: String,
    pub addr: IfAddr,
}

/// The address of an interface; only IPv4 addresses are of use here.
#[derive(Debug, Clone, Copy, PartialEq, Eq, Structural)]
pub enum IfAddr {
    V4 { ip: Ipv4Addr, netmask: Ipv4Addr, broadcast: Option<Ipv4Addr> },
    V6(u128),
}

/// One IPv4 address of one interface in use.
#[derive(Debug, Clone, PartialEq, Eq)]
pub struct IfaceEntry {
    pub name: String,
    pub ip: Ipv4Addr,
    pub netmask: Ipv4Addr,
    pub broadcast: Ipv4Addr,
    pub is_virtual_hint: bool,
}

/// The interfaces in use at one moment. Generation 0 means that they have not
/// been listed yet; every change raises the generation by one.
#[derive(Debug, Clone, PartialEq, Eq)]
pub struct IfaceSnapshot {
    pub generation: u64,
    pub entries: Vec<IfaceEntry>,
}

/// An interface as the settings page shows it, excluded or not.
#[derive(Debug, Clone, PartialEq, Eq)]
pub struct IfaceView {
    pub name: String,
    pub ip: Ipv4Addr,
    pub netmask: Ipv4Addr,
    pub is_virtual_hint: bool,
    pub excluded: bool,
}

/// Where to send to reach one subnet.
#[derive(Debug, Clone, Copy, PartialEq, Eq, Structural)]
pub struct SendTarget {
    pub iface_ip: Ipv4Addr,
    pub broadcast: Ipv4Addr,
}

// ---------------------------------------------------------------------------
// Model
// ---------------------------------------------------------------------------

/// An entry by the values that it holds.
#[verifier::ext_equal]
pub struct IfaceRow {
    pub name: Seq<char>,
    pub ip: Ipv4Addr,
    pub netmask: Ipv4Addr,
    pub broadcast: Ipv4Addr,
    pub is_virtual_hint: bool,
}

impl View for IfaceEntry {
    type V = IfaceRow;

    open spec fn view(&self) -> IfaceRow {
        IfaceRow {
            name: self.name@,
            ip: self.ip,
            netmask: self.netmask,
            broadcast: self.broadcast,
            is_virtual_hint: self.is_virtual_hint,
        }
    }
}

/// The entries by their values.
pub open spec fn rows(v: Seq<IfaceEntry>) -> Seq<IfaceRow> {
    v.map_values(|e: IfaceEntry| e@)
}

/// Whether a name hints at a tunnel, a bridge or a virtual adapter.
pub open spec fn hints_virtual(name: Seq<char>) -> bool {
    let n = text::lower_text(name);
    text::contains_text(n, "tun"@) || text::contains_text(n, "utun"@) || text::contains_text(
        n,
        "bridge"@,
    ) || text::contains_text(n, "vnic"@) || text::contains_text(n, "vmnet"@)
}

/// Whether the system's entry is an IPv4 address other than loopback.
pub open spec fn is_usable(i: Interface) -> bool {
    match i.addr {
        IfAddr::V4 { ip, .. } => addr::octet(ip.bits as nat, 0) != 127,
        IfAddr::V6(_) => false,
    }
}

/// The entry made from a usable interface; the broadcast address is computed
/// where the system gives none.
pub open spec fn row_of(i: Interface) -> IfaceRow {
    match i.addr {
        IfAddr::V4 { ip, netmask, broadcast } => IfaceRow {
            name: i.name@,
            ip,
            netmask,
            broadcast: match broadcast {
                Some(b) => b,
                None => Ipv4Addr { bits: ip.bits | !netmask.bits },
            },
            is_virtual_hint: hints_virtual(i.name@),
        },
        IfAddr::V6(_) => arbitrary(),
    }
}

/// The rows of the usable interfaces that are not excluded, as the system lists them.
pub open spec fn listed_rows(ifaces: Seq<Interface>, excluded: Seq<Seq<char>>) -> Seq<IfaceRow>
    decreases ifaces.len(),
{
    if ifaces.len() == 0 {
        Seq::empty()
    } else {
        let before = listed_rows(ifaces.drop_last(), excluded);
        let i = ifaces.last();
        if is_usable(i) && !excluded.contains(i.name@) {
            before.push(row_of(i))
        } else {
            before
        }
    }
}

/// Rows are ordered by name, then by address.
pub open spec fn row_before(a: IfaceRow, b: IfaceRow) -> bool {
    text::text_less(a.name, b.name) || (a.name == b.name && a.ip.bits < b.ip.bits)
}

impl Ranked for IfaceEntry {
    open spec fn before(self, other: Self) -> bool {
        row_before(self@, other@)
    }

    fn comes_before(&self, other: &Self) -> (r: bool) {
        less_text(&self.name, &other.name) || (same_text(&self.name, &other.name) && self.ip.bits
            < other.ip.bits)
    }
}

/// The order of rows is one that sorting can use.
proof fn lemma_row_order()
    ensures
        order::is_weak_order(|a: IfaceRow, b: IfaceRow| row_before(a, b)),
{
    let less = |a: IfaceRow, b: IfaceRow| row_before(a, b);
    assert forall|a: IfaceRow, b: IfaceRow| #[trigger] less(a, b) implies !less(b, a) by {
        text::lemma_text_order(a.name, b.name, b.name);
    }
    assert forall|a: IfaceRow, b: IfaceRow, c: IfaceRow|
        !(#[trigger] less(b, a)) && !(#[trigger] less(c, b)) implies !less(c, a) by {
        text::lemma_text_order(a.name, b.name, c.name);
    }
}

/// The list in use is in order of name and address, and lists every usable
/// interface that is not excluded, and no other.
pub proof fn law_listed_in_order(ifaces: Seq<Interface>, excluded: Seq<Seq<char>>)
    ensures
        ({
            let given = listed_rows(ifaces, excluded);
            let less = |a: IfaceRow, b: IfaceRow| row_before(a, b);
            let list = order::sorted(given, less);
            &&& order::in_order(list, less)
            &&& list.to_multiset() == given.to_multiset()
            &&& forall|i: int|
                0 <= i < given.len() ==> !excluded.contains((#[trigger] given[i]).name)
        }),
{
    lemma_row_order();
    order::law_sorted(
        listed_rows(ifaces, excluded),
        |a: IfaceRow, b: IfaceRow| row_before(a, b),
    );
    lemma_listed_not_excluded(ifaces, excluded);
}

proof fn lemma_listed_not_excluded(ifaces: Seq<Interface>, excluded: Seq<Seq<char>>)
    ensures
        forall|i: int|
            0 <= i < listed_rows(ifaces, excluded).len() ==> !excluded.contains(
                (#[trigger] listed_rows(ifaces, excluded)[i]).name,
            ),
    decreases ifaces.len(),
{
    if ifaces.len() > 0 {
        lemma_listed_not_excluded(ifaces.drop_last(), excluded);
        let before = listed_rows(ifaces.drop_last(), excluded);
        let all = listed_rows(ifaces, excluded);
        assert forall|i: int| 0 <= i < all.len() implies !excluded.contains(
            (#[trigger] all[i]).name,
        ) by {
            if i < before.len() {
                assert(all[i] == before[i]);
            }
        }
    }
}

// ---------------------------------------------------------------------------
// Names and addresses
// ---------------------------------------------------------------------------

/// Whether an interface name hints at a tunnel, a bridge or a virtual adapter.
/// Case does not matter.
pub fn is_virtual_hint(name: &str) -> (r: bool)
    ensures
        r == hints_virtual(name@),
{
    let n: String = to_ascii_lowercase(name);
    contains_str(&n, "tun") || contains_str(&n, "utun") || contains_str(&n, "bridge")
        || contains_str(&n, "vnic") || contains_str(&n, "vmnet")
}

/// The directed broadcast address of a subnet.
pub fn directed_broadcast(ip: Ipv4Addr, netmask: Ipv4Addr) -> (r: Ipv4Addr)
    ensures
        r.bits == ip.bits | !netmask.bits,
{
    Ipv4Addr { bits: ip.bits | !netmask.bits }
}

/// Whether the list holds the name.
pub fn holds_name(names: &[String], name: &str) -> (r: bool)
    ensures
        r == text::texts(names@).contains(name@),
{
    let mut i: usize = 0;
    while i < names.len()
        invariant
            i <= names.len(),
            forall|j: int| 0 <= j < i ==> (#[trigger] names@[j])@ != name@,
        decreases names.len() - i,
    {
        if same_text(&names[i], name) {
            assert(text::texts(names@)[i as int] == name@);
            return true;
        }
        i = i + 1;
    }
    proof {
        assert forall|j: int| 0 <= j < text::texts(names@).len() implies text::texts(names@)[j]
            != name@ by {
            assert(text::texts(names@)[j] == names@[j]@);
        }
    }
    false
}

/// Whether the interface has an IPv4 address other than loopback.
fn usable(i: &Interface) -> (r: bool)
    ensures
        r == is_usable(*i),
{
    match i.addr {
        IfAddr::V4 { ip, .. } => ip.octets().0 != 127,
        IfAddr::V6(_) => false,
    }
}

/// The entries for the usable interfaces that are not excluded by exact name,
/// in order of name and address.
pub fn build_entries(ifaces: &[Interface], excluded: &[String]) -> (r: Vec<IfaceEntry>)
    ensures
        rows(r@) == order::sorted(
            listed_rows(ifaces@, text::texts(excluded@)),
            |a: IfaceRow, b: IfaceRow| row_before(a, b),
        ),
{
    let mut v: Vec<IfaceEntry> = Vec::new();
    let mut k: usize = 0;
    proof {
        assert(ifaces@.take(0) =~= Seq::<Interface>::empty());
        assert(rows(v@) =~= Seq::<IfaceRow>::empty());
    }
    while k < ifaces.len()
        invariant
            k <= ifaces.len(),
            rows(v@) == listed_rows(ifaces@.take(k as int), text::texts(excluded@)),
        decreases ifaces.len() - k,
    {
        let i: &Interface = &ifaces[k];
        let ghost before = v@;
        proof {
            assert(ifaces@.take(k + 1).drop_last() =~= ifaces@.take(k as int));
            assert(ifaces@.take(k + 1).last() == *i);
        }
        if usable(i) && !holds_name(excluded, &i.name) {
            match i.addr {
                IfAddr::V4 { ip, netmask, broadcast } => {
                    let b: Ipv4Addr = match broadcast {
                        Some(b) => b,
                        None => directed_broadcast(ip, netmask),
                    };
                    let e: IfaceEntry = IfaceEntry {
                        name: i.name.clone(),
                        ip,
                        netmask,
                        broadcast: b,
                        is_virtual_hint: is_virtual_hint(&i.name),
                    };
                    v.push(e);
                    proof {
                        assert(rows(v@) =~= rows(before).push(e@));
                        assert(e@ =~= row_of(*i));
                    }
                },
                IfAddr::V6(_) => {},
            }
        }
        k = k + 1;
    }
    proof {
        assert(ifaces@.take(k as int) =~= ifaces@);
    }
    let ghost listed = v@;
    let r: Vec<IfaceEntry> = sort_ranked(v);
    proof {
        order::lemma_sorted_map(
            listed,
            |e: IfaceEntry| e@,
            order::by_rank::<IfaceEntry>(),
            |a: IfaceRow, b: IfaceRow| row_before(a, b),
        );
    }
    r
}

/// Whether the address is in the subnet of one of the rows.
pub open spec fn shares_subnet(ip: Ipv4Addr, rows: Seq<IfaceRow>) -> bool {
    exists|i: int|
        0 <= i < rows.len() && ip.bits & (#[trigger] rows[i]).netmask.bits == rows[i].ip.bits
            & rows[i].netmask.bits
}

/// Whether the address is near: an IPv4 address in the subnet of some entry.
pub open spec fn is_near(a: IpAddr, rows: Seq<IfaceRow>) -> bool {
    match a {
        IpAddr::V4(ip) => shares_subnet(ip, rows),
        IpAddr::V6(_) => false,
    }
}

/// Whether the address is in the subnet of some entry; never for IPv6.
pub fn same_subnet(addr: IpAddr, entries: &[IfaceEntry]) -> (r: bool)
    ensures
        r == is_near(addr, rows(entries@)),
{
    match addr {
        IpAddr::V6(_) => false,
        IpAddr::V4(ip) => {
            let mut i: usize = 0;
            while i < entries.len()
                invariant
                    i <= entries.len(),
                    addr == IpAddr::V4(ip),
                    forall|j: int|
                        0 <= j < i ==> ip.bits & (#[trigger] entries@[j]).netmask.bits
                            != entries@[j].ip.bits & entries@[j].netmask.bits,
                decreases entries.len() - i,
            {
                let mask: u32 = entries[i].netmask.bits;
                if ip.bits & mask == entries[i].ip.bits & mask {
                    proof {
                        let row = rows(entries@)[i as int];
                        assert(row == entries@[i as int]@);
                        assert(ip.bits & row.netmask.bits == row.ip.bits & row.netmask.bits);
                    }
                    return true;
                }
                i = i + 1;
            }
            proof {
                assert forall|j: int| 0 <= j < rows(entries@).len() implies ip.bits & (
                #[trigger] rows(entries@)[j]).netmask.bits != rows(entries@)[j].ip.bits & rows(
                    entries@,
                )[j].netmask.bits by {
                    assert(rows(entries@)[j] == entries@[j]@);
                }
            }
            false
        },
    }
}

/// Tells the near addresses.
pub open spec fn near_by(rows: Seq<IfaceRow>) -> spec_fn(IpAddr) -> bool {
    |a: IpAddr| is_near(a, rows)
}

/// Tells the addresses that are not near.
pub open spec fn far_off(rows: Seq<IfaceRow>) -> spec_fn(IpAddr) -> bool {
    |a: IpAddr| !is_near(a, rows)
}

/// The near addresses in front, both parts in the order in which they were given.
pub open spec fn near_first(addrs: Seq<IpAddr>, rows: Seq<IfaceRow>) -> Seq<IpAddr> {
    addrs.filter(near_by(rows)) + addrs.filter(far_off(rows))
}

/// Moves the addresses that share a subnet with an entry to the front.
pub fn sort_by_affinity(addrs: &mut Vec<IpAddr>, entries: &[IfaceEntry])
    ensures
        final(addrs)@ == near_first(old(addrs)@, rows(entries@)),
{
    let mut near: Vec<IpAddr> = Vec::new();
    let mut far: Vec<IpAddr> = Vec::new();
    let mut i: usize = 0;
    let ghost given = addrs@;
    let ghost p = near_by(rows(entries@));
    let ghost q = far_off(rows(entries@));
    proof {
        reveal(Seq::filter);
        assert(given.take(0).filter(p) =~= Seq::<IpAddr>::empty());
        assert(given.take(0).filter(q) =~= Seq::<IpAddr>::empty());
    }
    while i < addrs.len()
        invariant
            i <= addrs.len(),
            addrs@ == given,
            p == near_by(rows(entries@)),
            q == far_off(rows(entries@)),
            near@ == given.take(i as int).filter(p),
            far@ == given.take(i as int).filter(q),
        decreases addrs.len() - i,
    {
        let a: IpAddr = addrs[i];
        proof {
            reveal(Seq::filter);
            assert(given.take(i + 1).drop_last() =~= given.take(i as int));
            assert(given.take(i + 1).last() == a);
        }
        if same_subnet(a, entries) {
            near.push(a);
        } else {
            far.push(a);
        }
        i = i + 1;
    }
    proof {
        assert(given.take(i as int) =~= given);
    }
    near.append(&mut far);
    *addrs = near;
}

/// Whether a list holds the given addresses, each as often as it was given, every
/// near one before every other, and the near ones, as the others, in the order in
/// which they were given.
#[verifier::opaque]
pub open spec fn puts_near_first(
    list: Seq<IpAddr>,
    given: Seq<IpAddr>,
    rows: Seq<IfaceRow>,
) -> bool {
    &&& list.to_multiset() == given.to_multiset()
    &&& forall|i: int, j: int|
        0 <= i < j < list.len() && is_near(#[trigger] list[j], rows) ==> is_near(
            #[trigger] list[i],
            rows,
        )
    &&& list.filter(near_by(rows)) == given.filter(near_by(rows))
    &&& list.filter(far_off(rows)) == given.filter(far_off(rows))
}

/// Putting the near addresses in front loses none and adds none: every near one
/// stands before every other, and among the near ones, as among the others, the
/// order stays.
pub proof fn law_near_first(addrs: Seq<IpAddr>, rows: Seq<IfaceRow>)
    ensures
        puts_near_first(near_first(addrs, rows), addrs, rows),
{
    reveal(puts_near_first);
    let p = near_by(rows);
    let q = far_off(rows);
    let near = addrs.filter(p);
    let far = addrs.filter(q);
    assert(near_first(addrs, rows) == near + far);
    seqs::lemma_filter_parts(addrs, p, q);
    assert forall|i: int| 0 <= i < near.len() implies p(#[trigger] near[i]) && !q(near[i]) by {
        assert(near.contains(near[i]));
        seqs::lemma_filter_contains(addrs, p, near[i]);
    }
    assert forall|i: int| 0 <= i < far.len() implies q(#[trigger] far[i]) && !p(far[i]) by {
        assert(far.contains(far[i]));
        seqs::lemma_filter_contains(addrs, q, far[i]);
    }
    Seq::filter_distributes_over_add(near, far, p);
    Seq::filter_distributes_over_add(near, far, q);
    seqs::lemma_filter_all(near, p);
    seqs::lemma_filter_none(near, q);
    seqs::lemma_filter_all(far, q);
    seqs::lemma_filter_none(far, p);
    assert(near + Seq::<IpAddr>::empty() =~= near);
    assert(Seq::<IpAddr>::empty() + far =~= far);
    assert forall|i: int, j: int|
        0 <= i < j < near_first(addrs, rows).len() && is_near(
            #[trigger] near_first(addrs, rows)[j],
            rows,
        ) implies is_near(#[trigger] near_first(addrs, rows)[i], rows) by {
        if i >= near.len() {
            assert(near_first(addrs, rows)[j] == far[j - near.len()]);
        } else {
            assert(near_first(addrs, rows)[i] == near[i]);
        }
    }
}

/// An address is near exactly if it is one of IPv4 and some interface is in a subnet
/// with it: under that interface's mask both are the same.
pub proof fn law_near_is_in_a_subnet(ip: Ipv4Addr, v6: u128, rows: Seq<IfaceRow>, i: int)
    ensures
        !is_near(IpAddr::V6(v6), rows),
        0 <= i < rows.len() && ip.bits & rows[i].netmask.bits == rows[i].ip.bits
            & rows[i].netmask.bits ==> is_near(IpAddr::V4(ip), rows),
        (forall|k: int|
            0 <= k < rows.len() ==> ip.bits & (#[trigger] rows[k]).netmask.bits != rows[k].ip.bits
                & rows[k].netmask.bits) ==> !is_near(IpAddr::V4(ip), rows),
{
}

/// The addresses of the rows, in order.
pub open spec fn ips_of(rows: Seq<IfaceRow>) -> Seq<Ipv4Addr> {
    rows.map_values(|r: IfaceRow| r.ip)
}

/// The values of `a` that are not in `b`, in the order of `a`.
pub open spec fn without(a: Seq<Ipv4Addr>, b: Seq<Ipv4Addr>) -> Seq<Ipv4Addr> {
    a.filter(|ip: Ipv4Addr| !b.contains(ip))
}

pub(crate) fn addrs_without(a: &[Ipv4Addr], b: &[Ipv4Addr]) -> (r: Vec<Ipv4Addr>)
    ensures
        r@ == without(a@, b@),
{
    let mut r: Vec<Ipv4Addr> = Vec::new();
    let mut i: usize = 0;
    let ghost p = |ip: Ipv4Addr| !b@.contains(ip);
    proof {
        reveal(Seq::filter);
        assert(a@.take(0).filter(p) =~= Seq::<Ipv4Addr>::empty());
    }
    while i < a.len()
        invariant
            i <= a.len(),
            p == (|ip: Ipv4Addr| !b@.contains(ip)),
            r@ == a@.take(i as int).filter(p),
        decreases a.len() - i,
    {
        proof {
            reveal(Seq::filter);
            assert(a@.take(i + 1).drop_last() =~= a@.take(i as int));
            assert(a@.take(i + 1).last() == a@[i as int]);
        }
        if !net_scope::holds_addr(b, a[i]) {
            r.push(a[i]);
        }
        i = i + 1;
    }
    proof {
        assert(a@.take(i as int) =~= a@);
    }
    r
}

/// What to join and what to leave so that the joined groups follow the entries.
pub fn multicast_diff(joined: &[Ipv4Addr], entries: &[IfaceEntry]) -> (r: (
    Vec<Ipv4Addr>,
    Vec<Ipv4Addr>,
))
    ensures
        r.0@ == without(ips_of(rows(entries@)), joined@),
        r.1@ == without(joined@, ips_of(rows(entries@))),
{
    let mut desired: Vec<Ipv4Addr> = Vec::new();
    let mut i: usize = 0;
    while i < entries.len()
        invariant
            i <= entries.len(),
            desired@ == ips_of(rows(entries@)).take(i as int),
        decreases entries.len() - i,
    {
        desired.push(entries[i].ip);
        proof {
            assert(ips_of(rows(entries@))[i as int] == entries@[i as int].ip);
        }
        i = i + 1;
    }
    proof {
        assert(desired@ =~= ips_of(rows(entries@)));
    }
    (addrs_without(&desired, joined), addrs_without(joined, &desired))
}

/// Whether an address is in `without(a, b)`: it is in `a` and not in `b`.
pub proof fn lemma_without_contains(a: Seq<Ipv4Addr>, b: Seq<Ipv4Addr>, x: Ipv4Addr)
    ensures
        without(a, b).contains(x) == (a.contains(x) && !b.contains(x)),
{
    seqs::lemma_filter_contains(a, |ip: Ipv4Addr| !b.contains(ip), x);
}

/// Leaving and joining as the difference says makes the joined addresses
/// exactly the desired ones.
pub proof fn law_multicast_diff_reaches_entries(joined: Seq<Ipv4Addr>, desired: Seq<Ipv4Addr>)
    ensures
        forall|x: Ipv4Addr|
            (without(joined, without(joined, desired)) + without(desired, joined)).contains(x)
                == #[trigger] desired.contains(x),
        joined == desired ==> without(desired, joined).len() == 0 && without(
            joined,
            desired,
        ).len() == 0,
{
    let left = without(joined, without(joined, desired));
    let new = without(desired, joined);
    assert forall|x: Ipv4Addr| (left + new).contains(x) == #[trigger] desired.contains(x) by {
        lemma_without_contains(joined, without(joined, desired), x);
        lemma_without_contains(joined, desired, x);
        lemma_without_contains(desired, joined, x);
        if (left + new).contains(x) {
            let i = choose|i: int| 0 <= i < (left + new).len() && (left + new)[i] == x;
            if i < left.len() {
                assert(left[i] == x);
            } else {
                assert(new[i - left.len()] == x);
            }
        }
        if left.contains(x) {
            let i = choose|i: int| 0 <= i < left.len() && left[i] == x;
            assert((left + new)[i] == x);
        }
        if new.contains(x) {
            let i = choose|i: int| 0 <= i < new.len() && new[i] == x;
            assert((left + new)[left.len() + i] == x);
        }
    }
    if joined == desired {
        if new.len() > 0 {
            lemma_without_contains(desired, joined, new[0]);
            assert(new.contains(new[0]));
        }
        let gone = without(joined, desired);
        if gone.len() > 0 {
            lemma_without_contains(joined, desired, gone[0]);
            assert(gone.contains(gone[0]));
        }
    }
}

// ---------------------------------------------------------------------------
// One sender for each subnet
// ---------------------------------------------------------------------------

/// Whether two rows are in the same subnet: same mask, same network.
pub open spec fn one_subnet(a: IfaceRow, b: IfaceRow) -> bool {
    a.netmask == b.netmask && a.ip.bits & a.netmask.bits == b.ip.bits & b.netmask.bits
}

/// Physical interfaces come before virtual ones, then the name decides, then the
/// address, and of one address the broadcast address.
pub open spec fn preferred(a: IfaceRow, b: IfaceRow) -> bool {
    if a.is_virtual_hint != b.is_virtual_hint {
        !a.is_virtual_hint
    } else if a.name != b.name {
        text::text_less(a.name, b.name)
    } else if a.ip != b.ip {
        a.ip.bits < b.ip.bits
    } else {
        a.broadcast.bits < b.broadcast.bits
    }
}

/// Whether row `i` speaks for its subnet: no row of the subnet is preferred to
/// it, and where it is listed more than once it stands first.
pub open spec fn represents(rows: Seq<IfaceRow>, i: int) -> bool {
    &&& 0 <= i < rows.len()
    &&& forall|j: int|
        0 <= j < rows.len() && one_subnet(#[trigger] rows[j], rows[i]) ==> if j < i {
            preferred(rows[i], rows[j])
        } else {
            !preferred(rows[j], rows[i])
        }
}

/// The target for a row.
pub open spec fn target_of(r: IfaceRow) -> SendTarget {
    SendTarget { iface_ip: r.ip, broadcast: r.broadcast }
}

/// The targets of the first `n` rows that speak for their subnets.
pub open spec fn targets_upto(rows: Seq<IfaceRow>, n: int) -> Seq<SendTarget>
    decreases n,
{
    if n <= 0 {
        Seq::empty()
    } else if represents(rows, n - 1) {
        targets_upto(rows, n - 1).push(target_of(rows[n - 1]))
    } else {
        targets_upto(rows, n - 1)
    }
}

/// One target for each subnet, by the sending address, and of one sending
/// address by the broadcast address.
pub open spec fn targets_of(rows: Seq<IfaceRow>) -> Seq<SendTarget> {
    order::sorted(targets_upto(rows, rows.len() as int), order::by_rank::<SendTarget>())
}

impl Ranked for SendTarget {
    open spec fn before(self, other: Self) -> bool {
        self.iface_ip.bits < other.iface_ip.bits || (self.iface_ip == other.iface_ip
            && self.broadcast.bits < other.broadcast.bits)
    }

    fn comes_before(&self, other: &Self) -> (r: bool) {
        self.iface_ip.bits < other.iface_ip.bits || (self.iface_ip.bits == other.iface_ip.bits
            && self.broadcast.bits < other.broadcast.bits)
    }
}

fn is_preferred(a: &IfaceEntry, b: &IfaceEntry) -> (r: bool)
    ensures
        r == preferred(a@, b@),
{
    if a.is_virtual_hint != b.is_virtual_hint {
        !a.is_virtual_hint
    } else if !same_text(&a.name, &b.name) {
        less_text(&a.name, &b.name)
    } else if a.ip.bits != b.ip.bits {
        a.ip.bits < b.ip.bits
    } else {
        a.broadcast.bits < b.broadcast.bits
    }
}

pub(crate) fn speaks_for_subnet(entries: &[IfaceEntry], i: usize) -> (r: bool)
    requires
        i < entries.len(),
    ensures
        r == represents(rows(entries@), i as int),
{
    let mut j: usize = 0;
    let ghost all = rows(entries@);
    proof {
        assert forall|k: int| 0 <= k < all.len() implies all[k] == (#[trigger] entries@[k])@ by {}
    }
    while j < entries.len()
        invariant
            i < entries.len(),
            j <= entries.len(),
            all == rows(entries@),
            forall|k: int| 0 <= k < all.len() ==> all[k] == (#[trigger] entries@[k])@,
            forall|k: int|
                0 <= k < j && one_subnet(#[trigger] all[k], all[i as int]) ==> if k < i {
                    preferred(all[i as int], all[k])
                } else {
                    !preferred(all[k], all[i as int])
                },
        decreases entries.len() - j,
    {
        let a: &IfaceEntry = &entries[j];
        let b: &IfaceEntry = &entries[i];
        proof {
            assert(all[j as int] == a@);
            assert(all[i as int] == b@);
        }
        if a.netmask.bits == b.netmask.bits && a.ip.bits & a.netmask.bits == b.ip.bits
            & b.netmask.bits {
            assert(one_subnet(all[j as int], all[i as int]));
            if j < i {
                if !is_preferred(b, a) {
                    return false;
                }
            } else if is_preferred(a, b) {
                return false;
            }
        }
        j = j + 1;
    }
    true
}

/// One target for each subnet, in order of the sending address. Of several
/// interfaces in a subnet a physical one is taken before a virtual one, then
/// the first by name, then the lowest address.
pub fn send_targets(entries: &[IfaceEntry]) -> (r: Vec<SendTarget>)
    ensures
        r@ == targets_of(rows(entries@)),
        forall|i: int, j: int|
            0 <= i < j < r@.len() ==> (#[trigger] r@[i]).iface_ip.bits <= (
            #[trigger] r@[j]).iface_ip.bits,
{
    let mut v: Vec<SendTarget> = Vec::new();
    let mut i: usize = 0;
    while i < entries.len()
        invariant
            i <= entries.len(),
            v@ == targets_upto(rows(entries@), i as int),
        decreases entries.len() - i,
    {
        if speaks_for_subnet(entries, i) {
            v.push(SendTarget { iface_ip: entries[i].ip, broadcast: entries[i].broadcast });
            proof {
                assert(rows(entries@)[i as int] == entries@[i as int]@);
            }
        }
        i = i + 1;
    }
    let ghost listed = v@;
    let r: Vec<SendTarget> = sort_ranked(v);
    proof {
        let less = order::by_rank::<SendTarget>();
        assert(order::is_weak_order(less));
        order::law_sorted(listed, less);
        assert(r@ == targets_of(rows(entries@)));
        assert forall|i: int, j: int| 0 <= i < j < r@.len() implies (
        #[trigger] r@[i]).iface_ip.bits <= (#[trigger] r@[j]).iface_ip.bits by {
            assert(!less(r@[j], r@[i]));
        }
    }
    r
}

/// The broadcast addresses of the targets, one for each subnet.
pub open spec fn broadcasts_of(rows: Seq<IfaceRow>) -> Seq<Ipv4Addr> {
    targets_of(rows).map_values(|t: SendTarget| t.broadcast)
}

/// The broadcast addresses of the targets, one for each subnet.
pub fn broadcast_targets(entries: &[IfaceEntry]) -> (r: Vec<Ipv4Addr>)
    ensures
        r@ == broadcasts_of(rows(entries@)),
{
    let t: Vec<SendTarget> = send_targets(entries);
    let mut r: Vec<Ipv4Addr> = Vec::new();
    let mut i: usize = 0;
    let ghost f = |t: SendTarget| t.broadcast;
    while i < t.len()
        invariant
            i <= t.len(),
            f == (|t: SendTarget| t.broadcast),
            r@ == t@.take(i as int).map_values(f),
        decreases t.len() - i,
    {
        r.push(t[i].broadcast);
        proof {
            assert(t@.take(i + 1).map_values(f) =~= t@.take(i as int).map_values(f).push(
                t@[i as int].broadcast,
            ));
        }
        i = i + 1;
    }
    proof {
        assert(t@.take(i as int) =~= t@);
    }
    r
}

/// What the choice of a representative relies on.
proof fn lemma_preferred(a: IfaceRow, b: IfaceRow, c: IfaceRow)
    ensures
        !preferred(a, a),
        preferred(a, b) && preferred(b, c) ==> preferred(a, c),
        preferred(a, b) ==> !preferred(b, a),
        !preferred(b, a) && !preferred(c, b) ==> !preferred(c, a),
        preferred(c, b) && !preferred(a, b) ==> preferred(c, a),
{
    text::lemma_text_order(a.name, b.name, c.name);
    text::lemma_text_order(c.name, a.name, a.name);
    text::lemma_text_order(b.name, c.name, a.name);
    text::lemma_text_order(c.name, a.name, b.name);
}

/// Among the first `n` rows one is the best of the subnet of row `i`.
proof fn lemma_best_upto(rows: Seq<IfaceRow>, i: int, n: int) -> (k: int)
    requires
        0 <= i < n <= rows.len(),
    ensures
        0 <= k < n,
        one_subnet(rows[k], rows[i]),
        forall|j: int|
            0 <= j < n && one_subnet(#[trigger] rows[j], rows[k]) ==> if j < k {
                preferred(rows[k], rows[j])
            } else {
                !preferred(rows[j], rows[k])
            },
    decreases n,
{
    if exists|j: int| 0 <= j < n - 1 && one_subnet(#[trigger] rows[j], rows[i]) {
        let j0 = choose|j: int| 0 <= j < n - 1 && one_subnet(#[trigger] rows[j], rows[i]);
        let b = lemma_best_upto(rows, j0, n - 1);
        if one_subnet(rows[n - 1], rows[i]) && preferred(rows[n - 1], rows[b]) {
            let k = n - 1;
            assert forall|j: int| 0 <= j < n && one_subnet(#[trigger] rows[j], rows[k]) implies if j
                < k {
                preferred(rows[k], rows[j])
            } else {
                !preferred(rows[j], rows[k])
            } by {
                if j < k {
                    assert(one_subnet(rows[j], rows[b]));
                    lemma_preferred(rows[j], rows[b], rows[k]);
                    lemma_preferred(rows[b], rows[j], rows[k]);
                    lemma_preferred(rows[k], rows[b], rows[j]);
                } else {
                    lemma_preferred(rows[k], rows[k], rows[k]);
                }
            }
            k
        } else {
            b
        }
    } else {
        lemma_preferred(rows[i], rows[i], rows[i]);
        i
    }
}

/// Every subnet among the entries has one entry that speaks for it, and only one.
pub proof fn law_one_target_per_subnet(rows: Seq<IfaceRow>, i: int)
    requires
        0 <= i < rows.len(),
    ensures
        exists|k: int| #[trigger] represents(rows, k) && one_subnet(rows[k], rows[i]),
        forall|k: int, l: int|
            #![trigger represents(rows, k), represents(rows, l)]
            represents(rows, k) && represents(rows, l) && one_subnet(rows[k], rows[l]) ==> k == l,
{
    let k = lemma_best_upto(rows, i, rows.len() as int);
    assert(represents(rows, k));
    assert forall|k: int, l: int|
        #![trigger represents(rows, k), represents(rows, l)]
        represents(rows, k) && represents(rows, l) && one_subnet(rows[k], rows[l]) implies k == l by {
        assert(one_subnet(rows[l], rows[k]));
    }
}

/// Whether a row is listed and no row of its subnet is preferred to it.
pub open spec fn unbeaten(rows: Seq<IfaceRow>, r: IfaceRow) -> bool {
    &&& rows.contains(r)
    &&& forall|j: int|
        0 <= j < rows.len() && one_subnet(#[trigger] rows[j], r) ==> !preferred(rows[j], r)
}

/// The first `n` rows that speak for their subnets.
spec fn speakers_upto(rows: Seq<IfaceRow>, n: int) -> Seq<IfaceRow>
    decreases n,
{
    if n <= 0 {
        Seq::empty()
    } else if represents(rows, n - 1) {
        speakers_upto(rows, n - 1).push(rows[n - 1])
    } else {
        speakers_upto(rows, n - 1)
    }
}

proof fn lemma_speakers_upto(rows: Seq<IfaceRow>, n: int)
    requires
        0 <= n <= rows.len(),
    ensures
        targets_upto(rows, n) == speakers_upto(rows, n).map_values(|r: IfaceRow| target_of(r)),
        speakers_upto(rows, n).no_duplicates(),
        forall|r: IfaceRow| #[trigger]
            speakers_upto(rows, n).contains(r) == exists|k: int|
                0 <= k < n && #[trigger] represents(rows, k) && rows[k] == r,
    decreases n,
{
    let f = |r: IfaceRow| target_of(r);
    let all = speakers_upto(rows, n);
    if n > 0 {
        let t = speakers_upto(rows, n - 1);
        let last = rows[n - 1];
        lemma_speakers_upto(rows, n - 1);
        if represents(rows, n - 1) {
            assert(all == t.push(last));
            assert(all.map_values(f) =~= t.map_values(f).push(f(last)));
            assert(!t.contains(last)) by {
                if t.contains(last) {
                    let k = choose|k: int|
                        0 <= k < n - 1 && #[trigger] represents(rows, k) && rows[k] == last;
                    assert(one_subnet(rows[k], rows[n - 1]));
                    lemma_preferred(last, last, last);
                }
            }
            assert forall|r: IfaceRow| #[trigger] all.contains(r) == exists|k: int|
                0 <= k < n && #[trigger] represents(rows, k) && rows[k] == r by {
                if all.contains(r) {
                    let i = choose|i: int| 0 <= i < all.len() && all[i] == r;
                    if i < t.len() {
                        assert(t[i] == r);
                        assert(t.contains(r));
                    }
                }
                if exists|k: int| 0 <= k < n && #[trigger] represents(rows, k) && rows[k] == r {
                    let k = choose|k: int|
                        0 <= k < n && #[trigger] represents(rows, k) && rows[k] == r;
                    if k < n - 1 {
                        assert(t.contains(r));
                        let i = choose|i: int| 0 <= i < t.len() && t[i] == r;
                        assert(all[i] == r);
                    } else {
                        assert(all[t.len() as int] == r);
                    }
                }
            }
        } else {
            assert(all == t);
        }
    } else {
        assert(all.map_values(f) =~= Seq::<SendTarget>::empty());
    }
}

/// A row speaks for its subnet where it is listed and no other is preferred.
proof fn lemma_speaker_is_unbeaten(rows: Seq<IfaceRow>, r: IfaceRow)
    ensures
        unbeaten(rows, r) == exists|k: int| #[trigger] represents(rows, k) && rows[k] == r,
{
    if exists|k: int| #[trigger] represents(rows, k) && rows[k] == r {
        let k = choose|k: int| #[trigger] represents(rows, k) && rows[k] == r;
        assert forall|j: int| 0 <= j < rows.len() && one_subnet(#[trigger] rows[j], r) implies
            !preferred(rows[j], r) by {
            lemma_preferred(r, rows[j], rows[j]);
        }
        assert(rows.contains(r));
    }
    if unbeaten(rows, r) {
        let i = choose|i: int| 0 <= i < rows.len() && rows[i] == r;
        law_one_target_per_subnet(rows, i);
        let k = choose|k: int| #[trigger] represents(rows, k) && one_subnet(rows[k], rows[i]);
        assert(!preferred(rows[k], r));
        assert(!preferred(r, rows[k])) by {
            assert(one_subnet(rows[i], rows[k]));
            lemma_preferred(rows[k], r, r);
        }
        text::lemma_text_less_total(r.name, rows[k].name);
        assert(rows[k] =~= r);
    }
}

/// The targets and their order do not depend on the order in which the entries
/// are listed.
pub proof fn law_targets_ignore_order(a: Seq<IfaceRow>, b: Seq<IfaceRow>)
    requires
        a.to_multiset() == b.to_multiset(),
    ensures
        targets_of(a) == targets_of(b),
        broadcasts_of(a) == broadcasts_of(b),
{
    let f = |r: IfaceRow| target_of(r);
    let less = order::by_rank::<SendTarget>();
    let s = speakers_upto(a, a.len() as int);
    let t = speakers_upto(b, b.len() as int);
    seqs::lemma_same_members(a, b);
    lemma_speakers_upto(a, a.len() as int);
    lemma_speakers_upto(b, b.len() as int);
    assert forall|r: IfaceRow| #[trigger] s.contains(r) == t.contains(r) by {
        lemma_speaker_is_unbeaten(a, r);
        lemma_speaker_is_unbeaten(b, r);
        assert(a.contains(r) == b.contains(r));
        if a.contains(r) && !unbeaten(a, r) {
            let j = choose|j: int|
                0 <= j < a.len() && one_subnet(#[trigger] a[j], r) && preferred(a[j], r);
            assert(b.contains(a[j]));
            let k = choose|k: int| 0 <= k < b.len() && b[k] == a[j];
            assert(one_subnet(b[k], r) && preferred(b[k], r));
        }
        if b.contains(r) && !unbeaten(b, r) {
            let j = choose|j: int|
                0 <= j < b.len() && one_subnet(#[trigger] b[j], r) && preferred(b[j], r);
            assert(a.contains(b[j]));
            let k = choose|k: int| 0 <= k < a.len() && a[k] == b[j];
            assert(one_subnet(a[k], r) && preferred(a[k], r));
        }
    }
    seqs::lemma_no_duplicates_multiset(s, t);
    seqs::lemma_map_multiset(s, t, f);
    assert(order::is_weak_order(less));
    assert forall|x: SendTarget, y: SendTarget| !(#[trigger] less(x, y)) && !less(y, x) implies x
        == y by {}
    order::law_order_is_unique(
        targets_upto(a, a.len() as int),
        targets_upto(b, b.len() as int),
        less,
    );
}

// ---------------------------------------------------------------------------
// The registry
// ---------------------------------------------------------------------------

impl Default for IfaceSnapshot {
    fn default() -> (r: Self)
        ensures
            r.generation == 0,
            r.entries@.len() == 0,
    {
        IfaceSnapshot { generation: 0, entries: Vec::new() }
    }
}

/// A copy of the entries.
pub fn copy_entries(v: &Vec<IfaceEntry>) -> (r: Vec<IfaceEntry>)
    ensures
        r@ == v@,
{
    let mut r: Vec<IfaceEntry> = Vec::new();
    let mut i: usize = 0;
    while i < v.len()
        invariant
            i <= v.len(),
            r@ == v@.take(i as int),
        decreases v.len() - i,
    {
        let e: &IfaceEntry = &v[i];
        r.push(
            IfaceEntry {
                name: e.name.clone(),
                ip: e.ip,
                netmask: e.netmask,
                broadcast: e.broadcast,
                is_virtual_hint: e.is_virtual_hint,
            },
        );
        i = i + 1;
    }
    r
}

/// Whether two lists hold the same entries in the same order.
fn same_entries(a: &Vec<IfaceEntry>, b: &Vec<IfaceEntry>) -> (r: bool)
    ensures
        r == (rows(a@) == rows(b@)),
{
    if a.len() != b.len() {
        assert(rows(a@).len() != rows(b@).len());
        return false;
    }
    let mut i: usize = 0;
    while i < a.len()
        invariant
            i <= a.len(),
            a.len() == b.len(),
            forall|j: int| 0 <= j < i ==> (#[trigger] a@[j])@ == b@[j]@,
        decreases a.len() - i,
    {
        let x: &IfaceEntry = &a[i];
        let y: &IfaceEntry = &b[i];
        if !(same_text(&x.name, &y.name) && x.ip == y.ip && x.netmask == y.netmask && x.broadcast
            == y.broadcast && x.is_virtual_hint == y.is_virtual_hint) {
            proof {
                assert(rows(a@)[i as int] == x@);
                assert(rows(b@)[i as int] == y@);
            }
            return false;
        }
        i = i + 1;
    }
    assert(rows(a@) =~= rows(b@));
    true
}

impl IfaceSnapshot {
    /// A copy of the snapshot.
    pub fn copied(&self) -> (r: Self)
        ensures
            r.generation == self.generation,
            r.entries@ == self.entries@,
    {
        IfaceSnapshot { generation: self.generation, entries: copy_entries(&self.entries) }
    }
}

/// What the settings page shows for a usable interface.
pub open spec fn shown_row(i: Interface, excluded: Seq<Seq<char>>) -> ShownRow {
    match i.addr {
        IfAddr::V4 { ip, netmask, .. } => ShownRow {
            name: i.name@,
            ip,
            netmask,
            is_virtual_hint: hints_virtual(i.name@),
            excluded: excluded.contains(i.name@),
        },
        IfAddr::V6(_) => arbitrary(),
    }
}

/// A shown interface by the values that it holds.
#[verifier::ext_equal]
pub struct ShownRow {
    pub name: Seq<char>,
    pub ip: Ipv4Addr,
    pub netmask: Ipv4Addr,
    pub is_virtual_hint: bool,
    pub excluded: bool,
}

impl View for IfaceView {
    type V = ShownRow;

    open spec fn view(&self) -> ShownRow {
        ShownRow {
            name: self.name@,
            ip: self.ip,
            netmask: self.netmask,
            is_virtual_hint: self.is_virtual_hint,
            excluded: self.excluded,
        }
    }
}

/// The shown rows of the usable interfaces, as the system lists them.
pub open spec fn shown_rows(ifaces: Seq<Interface>, excluded: Seq<Seq<char>>) -> Seq<ShownRow>
    decreases ifaces.len(),
{
    if ifaces.len() == 0 {
        Seq::empty()
    } else {
        let before = shown_rows(ifaces.drop_last(), excluded);
        if is_usable(ifaces.last()) {
            before.push(shown_row(ifaces.last(), excluded))
        } else {
            before
        }
    }
}

/// Shown rows are ordered by name, then by address.
pub open spec fn shown_before(a: ShownRow, b: ShownRow) -> bool {
    text::text_less(a.name, b.name) || (a.name == b.name && a.ip.bits < b.ip.bits)
}

impl Ranked for IfaceView {
    open spec fn before(self, other: Self) -> bool {
        shown_before(self@, other@)
    }

    fn comes_before(&self, other: &Self) -> (r: bool) {
        less_text(&self.name, &other.name) || (same_text(&self.name, &other.name) && self.ip.bits
            < other.ip.bits)
    }
}

/// The current snapshot and the names that the user has excluded. The calls
/// that look at the system take what it lists.
#[derive(Debug)]
pub struct InterfaceRegistry {
    excluded: Vec<String>,
    current: IfaceSnapshot,
}

impl InterfaceRegistry {
    /// The excluded names.
    pub closed spec fn excluded_names(&self) -> Seq<Seq<char>> {
        text::texts(self.excluded@)
    }

    /// The rows of the current snapshot.
    pub closed spec fn current_rows(&self) -> Seq<IfaceRow> {
        rows(self.current.entries@)
    }

    /// The generation of the current snapshot.
    pub closed spec fn generation(&self) -> u64 {
        self.current.generation
    }

    /// The rows that a listing gives with the excluded names.
    pub open spec fn rows_from(ifaces: Seq<Interface>, excluded: Seq<Seq<char>>) -> Seq<IfaceRow> {
        order::sorted(
            listed_rows(ifaces, excluded),
            |a: IfaceRow, b: IfaceRow| row_before(a, b),
        )
    }

    /// A registry with a first snapshot, whose generation is 1 whatever is listed.
    pub fn new(excluded: Vec<String>, ifaces: &[Interface]) -> (r: Self)
        ensures
            r.excluded_names() == text::texts(excluded@),
            r.generation() == 1,
            r.current_rows() == Self::rows_from(ifaces@, text::texts(excluded@)),
    {
        let entries: Vec<IfaceEntry> = build_entries(ifaces, &excluded);
        InterfaceRegistry { excluded, current: IfaceSnapshot { generation: 1, entries } }
    }

    /// The names of the excluded interfaces.
    pub fn excluded(&self) -> (r: Vec<String>)
        ensures
            text::texts(r@) == self.excluded_names(),
    {
        copy_texts(&self.excluded)
    }

    /// The current snapshot.
    pub fn snapshot(&self) -> (r: IfaceSnapshot)
        ensures
            r.generation == self.generation(),
            rows(r.entries@) == self.current_rows(),
    {
        self.current.copied()
    }

    /// Takes over new entries. Entries equal to the current ones change nothing
    /// and give no new snapshot.
    pub fn apply_entries(&mut self, entries: Vec<IfaceEntry>) -> (r: Option<IfaceSnapshot>)
        requires
            old(self).generation() < u64::MAX,
        ensures
            final(self).excluded_names() == old(self).excluded_names(),
            final(self).current_rows() == rows(entries@),
            if rows(entries@) == old(self).current_rows() {
                r is None && final(self).generation() == old(self).generation()
            } else {
                &&& final(self).generation() == old(self).generation() + 1
                &&& r is Some
                &&& r->Some_0.generation == final(self).generation()
                &&& rows(r->Some_0.entries@) == rows(entries@)
            },
    {
        if same_entries(&self.current.entries, &entries) {
            return None;
        }
        self.current.generation = self.current.generation + 1;
        self.current.entries = entries;
        Some(self.current.copied())
    }

    /// Takes over a new listing of the system's interfaces.
    pub fn refresh(&mut self, ifaces: &[Interface]) -> (r: Option<IfaceSnapshot>)
        requires
            old(self).generation() < u64::MAX,
        ensures
            final(self).excluded_names() == old(self).excluded_names(),
            ({
                let listed = Self::rows_from(ifaces@, old(self).excluded_names());
                &&& final(self).current_rows() == listed
                &&& if listed == old(self).current_rows() {
                    r is None && final(self).generation() == old(self).generation()
                } else {
                    &&& final(self).generation() == old(self).generation() + 1
                    &&& r is Some
                    &&& r->Some_0.generation == final(self).generation()
                    &&& rows(r->Some_0.entries@) == listed
                }
            }),
    {
        let entries: Vec<IfaceEntry> = build_entries(ifaces, &self.excluded);
        self.apply_entries(entries)
    }

    /// Replaces the excluded names and takes over a new listing. Gives the old
    /// names, and the new snapshot if the entries have changed.
    pub fn set_excluded(&mut self, names: Vec<String>, ifaces: &[Interface]) -> (r: (
        Vec<String>,
        Option<IfaceSnapshot>,
    ))
        requires
            old(self).generation() < u64::MAX,
        ensures
            text::texts(r.0@) == old(self).excluded_names(),
            final(self).excluded_names() == text::texts(names@),
            ({
                let listed = Self::rows_from(ifaces@, text::texts(names@));
                &&& final(self).current_rows() == listed
                &&& if listed == old(self).current_rows() {
                    r.1 is None && final(self).generation() == old(self).generation()
                } else {
                    &&& final(self).generation() == old(self).generation() + 1
                    &&& r.1 is Some
                    &&& r.1->Some_0.generation == final(self).generation()
                    &&& rows(r.1->Some_0.entries@) == listed
                }
            }),
    {
        let mut names: Vec<String> = names;
        std::mem::swap(&mut self.excluded, &mut names);
        let snapshot: Option<IfaceSnapshot> = self.refresh(ifaces);
        (names, snapshot)
    }

    /// All usable interfaces, excluded or not, in order of name and address.
    pub fn list_all(&self, ifaces: &[Interface]) -> (r: Vec<IfaceView>)
        ensures
            r@.map_values(|v: IfaceView| v@) == order::sorted(
                shown_rows(ifaces@, self.excluded_names()),
                |a: ShownRow, b: ShownRow| shown_before(a, b),
            ),
    {
        let mut v: Vec<IfaceView> = Vec::new();
        let mut k: usize = 0;
        let ghost f = |v: IfaceView| v@;
        proof {
            assert(ifaces@.take(0) =~= Seq::<Interface>::empty());
            assert(v@.map_values(f) =~= Seq::<ShownRow>::empty());
        }
        while k < ifaces.len()
            invariant
                k <= ifaces.len(),
                f == (|v: IfaceView| v@),
                v@.map_values(f) == shown_rows(ifaces@.take(k as int), self.excluded_names()),
            decreases ifaces.len() - k,
        {
            let i: &Interface = &ifaces[k];
            let ghost before = v@;
            proof {
                assert(ifaces@.take(k + 1).drop_last() =~= ifaces@.take(k as int));
                assert(ifaces@.take(k + 1).last() == *i);
            }
            if usable(i) {
                match i.addr {
                    IfAddr::V4 { ip, netmask, .. } => {
                        let e: IfaceView = IfaceView {
                            name: i.name.clone(),
                            ip,
                            netmask,
                            is_virtual_hint: is_virtual_hint(&i.name),
                            excluded: holds_name(&self.excluded, &i.name),
                        };
                        v.push(e);
                        proof {
                            assert(v@.map_values(f) =~= before.map_values(f).push(e@));
                            assert(e@ =~= shown_row(*i, self.excluded_names()));
                        }
                    },
                    IfAddr::V6(_) => {},
                }
            }
            k = k + 1;
        }
        proof {
            assert(ifaces@.take(k as int) =~= ifaces@);
        }
        let ghost listed = v@;
        let r: Vec<IfaceView> = sort_ranked(v);
        proof {
            order::lemma_sorted_map(
                listed,
                f,
                order::by_rank::<IfaceView>(),
                |a: ShownRow, b: ShownRow| shown_before(a, b),
            );
        }
        r
    }
}

proof fn lemma_listed_row(ifaces: Seq<Interface>, excluded: Seq<Seq<char>>, r: IfaceRow)
    ensures
        listed_rows(ifaces, excluded).contains(r) <==> exists|i: int|
            0 <= i < ifaces.len() && is_usable(#[trigger] ifaces[i]) && !excluded.contains(
                ifaces[i].name@,
            ) && row_of(ifaces[i]) == r,
    decreases ifaces.len(),
{
    let all = listed_rows(ifaces, excluded);
    if ifaces.len() > 0 {
        let t = ifaces.drop_last();
        let before = listed_rows(t, excluded);
        lemma_listed_row(t, excluded, r);
        assert(forall|i: int| 0 <= i < t.len() ==> #[trigger] t[i] == ifaces[i]);
        assert(ifaces[ifaces.len() - 1] == ifaces.last());
        if before.contains(r) {
            let k = choose|k: int| 0 <= k < before.len() && before[k] == r;
            assert(all[k] == r);
            let i = choose|i: int|
                0 <= i < t.len() && is_usable(#[trigger] t[i]) && !excluded.contains(t[i].name@)
                    && row_of(t[i]) == r;
            assert(is_usable(ifaces[i]));
        }
        if all.contains(r) && !before.contains(r) {
            let k = choose|k: int| 0 <= k < all.len() && all[k] == r;
            if k < before.len() {
                assert(before[k] == r);
            }
            assert(is_usable(ifaces[ifaces.len() - 1]));
        }
        if exists|i: int|
            0 <= i < ifaces.len() && is_usable(#[trigger] ifaces[i]) && !excluded.contains(
                ifaces[i].name@,
            ) && row_of(ifaces[i]) == r {
            let i = choose|i: int|
                0 <= i < ifaces.len() && is_usable(#[trigger] ifaces[i]) && !excluded.contains(
                    ifaces[i].name@,
                ) && row_of(ifaces[i]) == r;
            if i < t.len() {
                assert(t[i] == ifaces[i]);
            } else {
                assert(all[all.len() - 1] == r);
            }
        }
    }
}

/// Every interface of IPv4 that is not excluded and no loopback is in use, with its name, its
/// address, its mask and its broadcast address, which is computed where the system gives
/// none.
pub proof fn law_usable_interface_is_listed(
    ifaces: Seq<Interface>,
    excluded: Seq<Seq<char>>,
    i: int,
    ip: Ipv4Addr,
    netmask: Ipv4Addr,
    broadcast: Option<Ipv4Addr>,
)
    requires
        0 <= i < ifaces.len(),
        ifaces[i].addr == (IfAddr::V4 { ip, netmask, broadcast }),
        ip.bits < 0x7F00_0000 || ip.bits >= 0x8000_0000,
        !excluded.contains(ifaces[i].name@),
    ensures
        ({
            let list = InterfaceRegistry::rows_from(ifaces, excluded);
            exists|k: int|
                #![trigger list[k]]
                {
                    &&& 0 <= k < list.len()
                    &&& list[k].name == ifaces[i].name@
                    &&& list[k].ip == ip
                    &&& list[k].netmask == netmask
                    &&& broadcast matches Some(b) ==> list[k].broadcast == b
                    &&& broadcast is None ==> list[k].broadcast.bits == ip.bits | !netmask.bits
                    &&& list[k].is_virtual_hint == hints_virtual(ifaces[i].name@)
                }
        }),
{
    let list = InterfaceRegistry::rows_from(ifaces, excluded);
    let given = listed_rows(ifaces, excluded);
    let r = row_of(ifaces[i]);
    assert(is_usable(ifaces[i]));
    lemma_listed_row(ifaces, excluded, r);
    law_listed_in_order(ifaces, excluded);
    seqs::lemma_same_members(given, list);
    let g = choose|g: int| 0 <= g < given.len() && given[g] == r;
    assert(list.contains(given[g]));
    let k = choose|k: int| 0 <= k < list.len() && list[k] == r;
    assert(list[k].name == ifaces[i].name@);
}

/// Whatever is in use is an interface of IPv4 that the system lists and that is neither
/// excluded nor a loopback; it is listed by name, and under one name by address.
pub proof fn law_interface_in_use_is_usable(
    ifaces: Seq<Interface>,
    excluded: Seq<Seq<char>>,
    k: int,
    l: int,
)
    requires
        0 <= k < InterfaceRegistry::rows_from(ifaces, excluded).len(),
    ensures
        ({
            let list = InterfaceRegistry::rows_from(ifaces, excluded);
            &&& exists|i: int|
                0 <= i < ifaces.len() && (#[trigger] ifaces[i]).name@ == list[k].name
                    && ifaces[i].addr is V4 && ifaces[i].addr->ip == list[k].ip
                    && ifaces[i].addr->netmask == list[k].netmask
            &&& !excluded.contains(list[k].name)
            &&& list[k].ip.bits < 0x7F00_0000 || list[k].ip.bits >= 0x8000_0000
            &&& k < l < list.len() ==> !text::text_less(list[l].name, list[k].name)
            &&& k < l < list.len() && list[l].name == list[k].name ==> list[k].ip.bits
                <= list[l].ip.bits
        }),
{
    let list = InterfaceRegistry::rows_from(ifaces, excluded);
    let given = listed_rows(ifaces, excluded);
    let less = |a: IfaceRow, b: IfaceRow| row_before(a, b);
    law_listed_in_order(ifaces, excluded);
    assert(list == order::sorted(given, less));
    seqs::lemma_same_members(given, list);
    assert(given.contains(list[k]));
    lemma_listed_row(ifaces, excluded, list[k]);
    let i = choose|i: int|
        0 <= i < ifaces.len() && is_usable(#[trigger] ifaces[i]) && !excluded.contains(
            ifaces[i].name@,
        ) && row_of(ifaces[i]) == list[k];
    assert(ifaces[i].name@ == list[k].name);
    if k < l < list.len() {
        assert(!less(list[l], list[k]));
    }
}

proof fn lemma_shown_row(ifaces: Seq<Interface>, excluded: Seq<Seq<char>>, r: ShownRow)
    ensures
        shown_rows(ifaces, excluded).contains(r) <==> exists|i: int|
            0 <= i < ifaces.len() && is_usable(#[trigger] ifaces[i]) && shown_row(
                ifaces[i],
                excluded,
            ) == r,
    decreases ifaces.len(),
{
    let all = shown_rows(ifaces, excluded);
    if ifaces.len() > 0 {
        let t = ifaces.drop_last();
        let before = shown_rows(t, excluded);
        lemma_shown_row(t, excluded, r);
        assert(forall|i: int| 0 <= i < t.len() ==> #[trigger] t[i] == ifaces[i]);
        assert(ifaces[ifaces.len() - 1] == ifaces.last());
        if before.contains(r) {
            let k = choose|k: int| 0 <= k < before.len() && before[k] == r;
            assert(all[k] == r);
            let i = choose|i: int|
                0 <= i < t.len() && is_usable(#[trigger] t[i]) && shown_row(t[i], excluded) == r;
            assert(is_usable(ifaces[i]));
        }
        if all.contains(r) && !before.contains(r) {
            let k = choose|k: int| 0 <= k < all.len() && all[k] == r;
            if k < before.len() {
                assert(before[k] == r);
            }
            assert(is_usable(ifaces[ifaces.len() - 1]));
        }
        if exists|i: int|
            0 <= i < ifaces.len() && is_usable(#[trigger] ifaces[i]) && shown_row(
                ifaces[i],
                excluded,
            ) == r {
            let i = choose|i: int|
                0 <= i < ifaces.len() && is_usable(#[trigger] ifaces[i]) && shown_row(
                    ifaces[i],
                    excluded,
                ) == r;
            if i < t.len() {
                assert(t[i] == ifaces[i]);
            } else {
                assert(all[all.len() - 1] == r);
            }
        }
    }
}

/// The settings page shows every interface of IPv4 but a loopback, excluded or not, with its
/// name, its address and its mask, and says which are excluded.
pub proof fn law_excluded_interface_is_shown(
    ifaces: Seq<Interface>,
    excluded: Seq<Seq<char>>,
    i: int,
    ip: Ipv4Addr,
    netmask: Ipv4Addr,
    broadcast: Option<Ipv4Addr>,
)
    requires
        0 <= i < ifaces.len(),
        ifaces[i].addr == (IfAddr::V4 { ip, netmask, broadcast }),
        ip.bits < 0x7F00_0000 || ip.bits >= 0x8000_0000,
    ensures
        ({
            let shown = shown_rows(ifaces, excluded);
            exists|k: int|
                #![trigger shown[k]]
                {
                    &&& 0 <= k < shown.len()
                    &&& shown[k].name == ifaces[i].name@
                    &&& shown[k].ip == ip
                    &&& shown[k].netmask == netmask
                    &&& shown[k].excluded == excluded.contains(ifaces[i].name@)
                }
        }),
{
    let shown = shown_rows(ifaces, excluded);
    let r = shown_row(ifaces[i], excluded);
    assert(is_usable(ifaces[i]));
    lemma_shown_row(ifaces, excluded, r);
    let k = choose|k: int| 0 <= k < shown.len() && shown[k] == r;
    assert(shown[k].name == ifaces[i].name@);
}

/// Announcements go into the subnet of every interface in use: there is a target whose
/// interface has the same mask and is in the same subnet, with that interface's address
/// and broadcast address. Where the subnet has a physical interface the target is one.
pub proof fn law_every_subnet_has_a_target(rows: Seq<IfaceRow>, i: int)
    requires
        0 <= i < rows.len(),
    ensures
        exists|k: int|
            {
                &&& 0 <= k < rows.len()
                &&& (#[trigger] rows[k]).netmask == rows[i].netmask
                &&& rows[k].ip.bits & rows[k].netmask.bits == rows[i].ip.bits
                    & rows[i].netmask.bits
                &&& targets_of(rows).contains(
                    SendTarget { iface_ip: rows[k].ip, broadcast: rows[k].broadcast },
                )
                &&& !rows[i].is_virtual_hint ==> !rows[k].is_virtual_hint
            },
{
    law_one_target_per_subnet(rows, i);
    let k = choose|k: int| #[trigger] represents(rows, k) && one_subnet(rows[k], rows[i]);
    let n = rows.len() as int;
    let less = order::by_rank::<SendTarget>();
    let speakers = speakers_upto(rows, n);
    lemma_speakers_upto(rows, n);
    assert(speakers.contains(rows[k]));
    let at = choose|at: int| 0 <= at < speakers.len() && speakers[at] == rows[k];
    let given = targets_upto(rows, n);
    assert(given[at] == target_of(rows[k]));
    assert(order::is_weak_order(less));
    order::law_sorted(given, less);
    seqs::lemma_same_members(given, targets_of(rows));
    assert(targets_of(rows).contains(given[at]));
    assert(one_subnet(rows[i], rows[k]));
    assert(!rows[i].is_virtual_hint ==> !rows[k].is_virtual_hint) by {
        if i < k {
            assert(preferred(rows[k], rows[i]));
        } else {
            assert(!preferred(rows[i], rows[k]));
        }
    }
}

/// Every target is an interface in use, with its address and its broadcast address.
pub proof fn law_target_is_an_interface(rows: Seq<IfaceRow>, t: SendTarget)
    requires
        targets_of(rows).contains(t),
    ensures
        exists|k: int|
            0 <= k < rows.len() && (#[trigger] rows[k]).ip == t.iface_ip && rows[k].broadcast
                == t.broadcast,
{
    let n = rows.len() as int;
    let less = order::by_rank::<SendTarget>();
    let given = targets_upto(rows, n);
    let speakers = speakers_upto(rows, n);
    lemma_speakers_upto(rows, n);
    assert(order::is_weak_order(less));
    order::law_sorted(given, less);
    seqs::lemma_same_members(given, targets_of(rows));
    let j = choose|j: int| 0 <= j < targets_of(rows).len() && targets_of(rows)[j] == t;
    assert(given.contains(targets_of(rows)[j]));
    let at = choose|at: int| 0 <= at < given.len() && given[at] == t;
    assert(speakers.contains(speakers[at]));
    let k = choose|k: int| 0 <= k < n && #[trigger] represents(rows, k) && rows[k] == speakers[at];
    assert(rows[k].ip == t.iface_ip);
}

/// The broadcast address that is computed for an interface lies in the subnet of the
/// interface, and no address of the subnet is higher.
pub proof fn law_computed_broadcast_is_the_highest(ip: u32, netmask: u32, x: u32)
    ensures
        (ip | !netmask) & netmask == ip & netmask,
        x & netmask == ip & netmask ==> x <= ip | !netmask,
{
    assert((ip | !netmask) & netmask == ip & netmask) by (bit_vector);
    assert(x & netmask == ip & netmask ==> x <= (ip | !netmask)) by (bit_vector);
}

/// A name hints at a virtual interface exactly if, whatever the case of its letters, `tun`,
/// `bridge`, `vnic` or `vmnet` stands somewhere in it.
pub proof fn law_virtual_names(name: Seq<char>)
    ensures
        hints_virtual(name) <==> exists|i: int|
            #![trigger text::lower_text(name).skip(i)]
            0 <= i <= name.len() && {
                let rest = text::lower_text(name).skip(i);
                ||| text::has_prefix(rest, "tun"@)
                ||| text::has_prefix(rest, "bridge"@)
                ||| text::has_prefix(rest, "vnic"@)
                ||| text::has_prefix(rest, "vmnet"@)
            },
{
    let n = text::lower_text(name);
    reveal_strlit("tun");
    reveal_strlit("utun");
    assert("utun"@.len() == 4 && "tun"@.len() == 3);
    assert("utun"@.skip(1) =~= "tun"@);
    if text::contains_text(n, "utun"@) {
        let i = choose|i: int| text::occurs_at(n, "utun"@, i);
        assert(n.subrange(i + 1, i + 4) =~= n.subrange(i, i + 4).skip(1));
        assert(text::occurs_at(n, "tun"@, i + 1));
    }
    assert forall|p: Seq<char>, i: int| #[trigger] text::occurs_at(n, p, i) implies 0 <= i
        <= name.len() && text::has_prefix(n.skip(i), p) by {
        assert(n.skip(i).take(p.len() as int) =~= n.subrange(i, i + p.len()));
    }
    assert forall|p: Seq<char>, i: int|
        0 <= i <= name.len() && #[trigger] text::has_prefix(n.skip(i), p) implies text::occurs_at(
        n,
        p,
        i,
    ) by {
        assert(n.skip(i).take(p.len() as int) =~= n.subrange(i, i + p.len()));
    }
    if hints_virtual(name) {
        let p = if text::contains_text(n, "tun"@) {
            "tun"@
        } else if text::contains_text(n, "bridge"@) {
            "bridge"@
        } else if text::contains_text(n, "vnic"@) {
            "vnic"@
        } else {
            "vmnet"@
        };
        let i = choose|i: int| text::occurs_at(n, p, i);
        assert(text::occurs_at(n, p, i));
        assert(text::has_prefix(n.skip(i), p));
    }
}

/// Of the interfaces in one subnet the one that is a target is never virtual beside a physical
/// one, and among interfaces of the same kind it is one with the lowest name.
pub proof fn law_target_is_the_preferred_interface(rows: Seq<IfaceRow>, k: int, i: int)
    requires
        represents(rows, k),
        0 <= i < rows.len(),
        rows[i].netmask == rows[k].netmask,
        rows[i].ip.bits & rows[i].netmask.bits == rows[k].ip.bits & rows[k].netmask.bits,
    ensures
        rows[k].is_virtual_hint ==> rows[i].is_virtual_hint,
        rows[k].is_virtual_hint == rows[i].is_virtual_hint ==> !text::text_less(
            rows[i].name,
            rows[k].name,
        ),
        rows[k].is_virtual_hint == rows[i].is_virtual_hint && rows[k].name == rows[i].name
            ==> rows[k].ip.bits <= rows[i].ip.bits,
{
    assert(one_subnet(rows[i], rows[k]));
    text::lemma_text_order(rows[i].name, rows[k].name, rows[k].name);
    if i < k {
        assert(preferred(rows[k], rows[i]));
    } else {
        assert(!preferred(rows[i], rows[k]));
    }
}

/// The interfaces on the settings page are listed by name, and under one name by address.
pub proof fn law_shown_in_order(rows: Seq<ShownRow>, i: int, j: int)
    ensures
        ({
            let list = order::sorted(rows, |a: ShownRow, b: ShownRow| shown_before(a, b));
            &&& list.to_multiset() == rows.to_multiset()
            &&& 0 <= i < j < list.len() ==> !text::text_less(list[j].name, list[i].name)
            &&& 0 <= i < j < list.len() && list[i].name == list[j].name ==> list[i].ip.bits
                <= list[j].ip.bits
        }),
{
    let less = |a: ShownRow, b: ShownRow| shown_before(a, b);
    assert forall|a: ShownRow, b: ShownRow| #[trigger] less(a, b) implies !less(b, a) by {
        text::lemma_text_order(a.name, b.name, b.name);
    }
    assert forall|a: ShownRow, b: ShownRow, c: ShownRow|
        !(#[trigger] less(b, a)) && !(#[trigger] less(c, b)) implies !less(c, a) by {
        text::lemma_text_order(a.name, b.name, c.name);
    }
    order::law_sorted(rows, less);
    let list = order::sorted(rows, less);
    if 0 <= i < j < list.len() {
        assert(!less(list[j], list[i]));
    }
}

} // verus!
