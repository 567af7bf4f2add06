//! The set of peer addresses that the program may talk to.
//!
//! A scope is written as a list of entries, one to a line: a single address
//! `192.168.1.10`, a block `192.168.1.0/24` (host bits are cleared), or a
//! closed range `192.168.1.10-192.168.1.50`. The empty list allows every
//! address. Internally all entries are merged into sorted, disjoint closed
//! ranges of 32-bit integers, and every question is answered on those.

use crate::addr;
use crate::addr::{IpAddr, Ipv4Addr};
use crate::numeral;
use crate::numeral::{push_numeral, read_number};
use crate::split;
use crate::text;
use crate::text::{contains_char, owned, trim};
use vstd::prelude::*;
use vstd::string::StringExecFns;

verus! {

/// The most entries that a list may hold.
pub const MAX_ENTRIES: usize = 256;

/// The most hosts that are addressed one by one in a round of announcements.
pub const MAX_UNICAST_HOSTS: usize = 1024;

/// One entry of the list, in the form in which it was written.
#[derive(Debug, Clone, Copy, PartialEq, Eq, Structural)]
pub enum ScopeEntry {
    Single(Ipv4Addr),
    Cidr { network: Ipv4Addr, prefix: u8 },
    Range { start: Ipv4Addr, end: Ipv4Addr },
}

/// Why a list was refused, with the line (counted from one) and its text.
#[derive(Debug, Clone, PartialEq, Eq)]
pub enum ScopeParseError {
    BadIp { line: usize, text: String },
    BadPrefix { line: usize, text: String },
    ReversedRange { line: usize, text: String },
    Malformed { line: usize, text: String },
    TooMany(usize),
}

/// What can be wrong with a single entry.
#[derive(Debug, Clone, Copy, PartialEq, Eq, Structural)]
pub enum ScopeFault {
    BadIp,
    BadPrefix,
    ReversedRange,
    Malformed,
}

/// Addresses listed one by one. `truncated` says that there were more than
/// asked for; `skipped_entries` holds the entries that were too large to list.
#[derive(Debug, Clone, PartialEq, Eq)]
pub struct HostList {
    pub hosts: Vec<Ipv4Addr>,
    pub truncated: bool,
    pub skipped_entries: Vec<String>,
}

/// The allowed peer addresses; a scope without entries allows them all.
#[derive(Debug, PartialEq, Eq)]
pub struct NetScope {
    entries: Vec<ScopeEntry>,
    merged: Vec<(u32, u32)>,
}

// ---------------------------------------------------------------------------
// Model
// ---------------------------------------------------------------------------

/// The mask with `prefix` leading ones.
pub open spec fn mask_of(prefix: u8) -> u32 {
    if prefix == 0 {
        0
    } else {
        0xFFFF_FFFFu32 << ((32 - prefix) as u32)
    }
}

/// The lowest address of the subnet of `ip`.
pub open spec fn network_of(ip: u32, mask: u32) -> u32 {
    ip & mask
}

/// The highest address of the subnet of `ip`.
pub open spec fn broadcast_of(ip: u32, mask: u32) -> u32 {
    (ip & mask) | !mask
}

impl ScopeEntry {
    /// A block has at most 32 prefix bits, a range does not run backwards.
    pub open spec fn valid(self) -> bool {
        match self {
            ScopeEntry::Single(_) => true,
            ScopeEntry::Cidr { prefix, .. } => prefix <= 32,
            ScopeEntry::Range { start, end } => start.bits <= end.bits,
        }
    }

    /// The lowest address of the entry.
    pub open spec fn low(self) -> u32 {
        match self {
            ScopeEntry::Single(ip) => ip.bits,
            ScopeEntry::Cidr { network, .. } => network.bits,
            ScopeEntry::Range { start, .. } => start.bits,
        }
    }

    /// The highest address of the entry.
    pub open spec fn high(self) -> u32 {
        match self {
            ScopeEntry::Single(ip) => ip.bits,
            ScopeEntry::Cidr { network, prefix } => network.bits | !mask_of(prefix),
            ScopeEntry::Range { end, .. } => end.bits,
        }
    }

    /// Whether the entry holds the address.
    pub open spec fn holds(self, x: u32) -> bool {
        self.low() <= x <= self.high()
    }

    /// The number of addresses in the entry.
    pub open spec fn count(self) -> int {
        self.high() - self.low() + 1
    }

    /// The entry as it is written.
    pub open spec fn canonical_text(self) -> Seq<char> {
        match self {
            ScopeEntry::Single(ip) => addr::ipv4_text(ip.bits as nat),
            ScopeEntry::Cidr { network, prefix } => addr::ipv4_text(network.bits as nat) + seq!['/']
                + numeral::decimal(prefix as nat),
            ScopeEntry::Range { start, end } => addr::ipv4_text(start.bits as nat) + seq!['-']
                + addr::ipv4_text(end.bits as nat),
        }
    }
}

/// The entry that a trimmed text stands for, or what is wrong with it.
pub open spec fn entry_of(t: Seq<char>) -> Result<ScopeEntry, ScopeFault> {
    match split::split_once_at(t, '/') {
        Some((a, p)) => match addr::ipv4_of_text(text::trimmed(a)) {
            None => Err(ScopeFault::BadIp),
            Some(ip) => match numeral::parse_number(text::trimmed(p), 10, 32) {
                None => Err(ScopeFault::BadPrefix),
                Some(n) => Ok(
                    ScopeEntry::Cidr {
                        network: Ipv4Addr { bits: network_of(ip.bits, mask_of(n as u8)) },
                        prefix: n as u8,
                    },
                ),
            },
        },
        None => match split::split_once_at(t, '-') {
            Some((a, b)) => match (
                addr::ipv4_of_text(text::trimmed(a)),
                addr::ipv4_of_text(text::trimmed(b)),
            ) {
                (Some(start), Some(end)) => if start.bits > end.bits {
                    Err(ScopeFault::ReversedRange)
                } else {
                    Ok(ScopeEntry::Range { start, end })
                },
                _ => Err(ScopeFault::BadIp),
            },
            None => match addr::ipv4_of_text(t) {
                Some(ip) => Ok(ScopeEntry::Single(ip)),
                None => if t.contains('.') || t.contains(':') {
                    Err(ScopeFault::BadIp)
                } else {
                    Err(ScopeFault::Malformed)
                },
            },
        },
    }
}

impl ScopeParseError {
    /// Whether this is the error for that fault in that line.
    pub open spec fn reports(self, fault: ScopeFault, at: nat, t: Seq<char>) -> bool {
        match self {
            ScopeParseError::BadIp { line, text } => fault is BadIp && line == at && text@ == t,
            ScopeParseError::BadPrefix { line, text } => fault is BadPrefix && line == at && text@
                == t,
            ScopeParseError::ReversedRange { line, text } => fault is ReversedRange && line == at
                && text@ == t,
            ScopeParseError::Malformed { line, text } => fault is Malformed && line == at && text@
                == t,
            ScopeParseError::TooMany(_) => false,
        }
    }

    /// The message for the user.
    pub open spec fn message(self) -> Seq<char> {
        match self {
            ScopeParseError::BadIp { line, text } => "第 "@ + numeral::decimal(line as nat)
                + " 行:无法解析 IPv4 地址 `"@ + text@ + "`"@,
            ScopeParseError::BadPrefix { line, text } => "第 "@ + numeral::decimal(line as nat)
                + " 行:CIDR 前缀长度非法 `"@ + text@ + "`(应为 0-32)"@,
            ScopeParseError::ReversedRange { line, text } => "第 "@ + numeral::decimal(line as nat)
                + " 行:区间起点大于终点 `"@ + text@ + "`"@,
            ScopeParseError::Malformed { line, text } => "第 "@ + numeral::decimal(line as nat)
                + " 行:格式无法识别 `"@ + text@ + "`"@,
            ScopeParseError::TooMany(n) => "条目过多("@ + numeral::decimal(n as nat) + " > "@
                + numeral::decimal(MAX_ENTRIES as nat) + ")"@,
        }
    }
}

/// The entries on the lines that hold a sound one, in order.
pub open spec fn entries_of(lines: Seq<Seq<char>>) -> Seq<ScopeEntry>
    decreases lines.len(),
{
    if lines.len() == 0 {
        Seq::empty()
    } else {
        let before = entries_of(lines.drop_last());
        let t = text::trimmed(lines.last());
        if t.len() == 0 {
            before
        } else {
            match entry_of(t) {
                Ok(e) => before.push(e),
                Err(_) => before,
            }
        }
    }
}

/// The faulty lines in order: line number, what is wrong, and the trimmed text.
pub open spec fn faults_of(lines: Seq<Seq<char>>) -> Seq<(nat, ScopeFault, Seq<char>)>
    decreases lines.len(),
{
    if lines.len() == 0 {
        Seq::empty()
    } else {
        let before = faults_of(lines.drop_last());
        let t = text::trimmed(lines.last());
        if t.len() == 0 {
            before
        } else {
            match entry_of(t) {
                Ok(_) => before,
                Err(f) => before.push((lines.len(), f, t)),
            }
        }
    }
}

/// Whether some entry holds the address.
pub open spec fn some_entry_holds(entries: Seq<ScopeEntry>, x: u32) -> bool {
    exists|i: int| 0 <= i < entries.len() && (#[trigger] entries[i]).holds(x)
}

/// Whether some closed range holds the number.
pub open spec fn in_ranges(v: Seq<(u32, u32)>, x: u32) -> bool {
    exists|i: int| 0 <= i < v.len() && (#[trigger] v[i]).0 <= x <= v[i].1
}

/// No range runs backwards.
pub open spec fn forward(v: Seq<(u32, u32)>) -> bool {
    forall|i: int| 0 <= i < v.len() ==> (#[trigger] v[i]).0 <= v[i].1
}

/// Ranges in ascending order with a gap of at least one number between any two.
pub open spec fn separated(v: Seq<(u32, u32)>) -> bool {
    &&& forward(v)
    &&& forall|i: int, j: int| 0 <= i < j < v.len() ==> (#[trigger] v[i]).1 + 1 < (#[trigger] v[j]).0
}

/// `hosts` lists the wanted addresses in ascending order: all of them, or the
/// lowest `cap` if there are more, and only then is `truncated` set.
pub open spec fn lowest_wanted(
    hosts: Seq<Ipv4Addr>,
    truncated: bool,
    cap: nat,
    want: spec_fn(u32) -> bool,
) -> bool {
    &&& hosts.len() <= cap
    &&& forall|i: int, j: int| 0 <= i < j < hosts.len() ==> (#[trigger] hosts[i]).bits < (
    #[trigger] hosts[j]).bits
    &&& forall|i: int| 0 <= i < hosts.len() ==> want((#[trigger] hosts[i]).bits)
    &&& forall|x: u32| #[trigger]
        want(x) && !hosts.contains(Ipv4Addr { bits: x }) ==> truncated && forall|i: int|
            0 <= i < hosts.len() ==> (#[trigger] hosts[i]).bits < x
    &&& truncated ==> hosts.len() == cap && exists|x: u32| #[trigger]
        want(x) && !hosts.contains(Ipv4Addr { bits: x })
}

// ---------------------------------------------------------------------------
// Integer ranges
// ---------------------------------------------------------------------------

/// The mask with `prefix` leading ones.
pub fn prefix_mask(prefix: u8) -> (m: u32)
    requires
        prefix <= 32,
    ensures
        m == mask_of(prefix),
{
    if prefix == 0 {
        0
    } else {
        0xFFFF_FFFFu32 << (32 - prefix as u32)
    }
}

proof fn lemma_block_bounds(x: u32, m: u32)
    ensures
        x <= x | !m,
        x & m <= (x & m) | !m,
{
    assert(x <= x | !m) by (bit_vector);
    assert(x & m <= (x & m) | !m) by (bit_vector);
}

/// The lowest and the highest address of the subnet of `ip`.
pub fn subnet_bounds(ip: Ipv4Addr, netmask: Ipv4Addr) -> (r: (u32, u32))
    ensures
        r.0 == network_of(ip.bits, netmask.bits),
        r.1 == broadcast_of(ip.bits, netmask.bits),
        r.0 <= r.1,
{
    proof {
        lemma_block_bounds(ip.bits, netmask.bits);
    }
    let network: u32 = ip.bits & netmask.bits;
    (network, network | !netmask.bits)
}

proof fn lemma_in_ranges_push(v: Seq<(u32, u32)>, r: (u32, u32), x: u32)
    ensures
        in_ranges(v.push(r), x) == (in_ranges(v, x) || r.0 <= x <= r.1),
{
    let w = v.push(r);
    if in_ranges(v, x) {
        let i = choose|i: int| 0 <= i < v.len() && (#[trigger] v[i]).0 <= x <= v[i].1;
        assert(w[i].0 <= x <= w[i].1);
    }
    if r.0 <= x <= r.1 {
        assert(w[v.len() as int].0 <= x <= w[v.len() as int].1);
    }
    if in_ranges(w, x) {
        let i = choose|i: int| 0 <= i < w.len() && (#[trigger] w[i]).0 <= x <= w[i].1;
        if i < v.len() {
            assert(v[i].0 <= x <= v[i].1);
        }
    }
}

/// Sorts ranges by their starts.
fn sort_by_start(ranges: Vec<(u32, u32)>) -> (r: Vec<(u32, u32)>)
    requires
        forward(ranges@),
    ensures
        forward(r@),
        forall|i: int, j: int| 0 <= i <= j < r.len() ==> (#[trigger] r@[i]).0 <= (#[trigger] r@[j]).0,
        forall|x: u32| #[trigger] in_ranges(r@, x) == in_ranges(ranges@, x),
{
    let mut r: Vec<(u32, u32)> = Vec::new();
    let mut k: usize = 0;
    while k < ranges.len()
        invariant
            k <= ranges.len(),
            forward(ranges@),
            forward(r@),
            forall|i: int, j: int|
                0 <= i <= j < r.len() ==> (#[trigger] r@[i]).0 <= (#[trigger] r@[j]).0,
            forall|x: u32| #[trigger] in_ranges(r@, x) == in_ranges(ranges@.take(k as int), x),
        decreases ranges.len() - k,
    {
        let next: (u32, u32) = ranges[k];
        let mut at: usize = r.len();
        while at > 0 && r[at - 1].0 > next.0
            invariant
                at <= r.len(),
                forall|i: int| at <= i < r.len() ==> (#[trigger] r@[i]).0 > next.0,
            decreases at,
        {
            at = at - 1;
        }
        let ghost before = r@;
        r.insert(at, next);
        proof {
            assert(ranges@.take(k + 1) =~= ranges@.take(k as int).push(next));
            assert forall|x: u32| #[trigger] in_ranges(r@, x) == in_ranges(
                ranges@.take(k + 1),
                x,
            ) by {
                lemma_in_ranges_push(ranges@.take(k as int), next, x);
                lemma_in_ranges_insert(before, at as int, next, x);
            }
            assert forall|i: int, j: int| 0 <= i <= j < r.len() implies (#[trigger] r@[i]).0 <= (
            #[trigger] r@[j]).0 by {
                let i0 = if i < at { i } else { i - 1 };
                let j0 = if j < at { j } else { j - 1 };
                if i != at && j != at {
                    assert(r@[i] == before[i0] && r@[j] == before[j0]);
                } else if i == at && j > at {
                    assert(r@[j] == before[j0]);
                } else if j == at && i < at {
                    assert(r@[i] == before[i0]);
                    assert(before[i0].0 <= before[at - 1].0);
                }
            }
            assert(forward(r@)) by {
                assert forall|i: int| 0 <= i < r@.len() implies (#[trigger] r@[i]).0 <= r@[i].1 by {
                    if i < at {
                        assert(r@[i] == before[i]);
                    } else if i > at {
                        assert(r@[i] == before[i - 1]);
                    }
                }
            }
        }
        k = k + 1;
    }
    proof {
        assert(ranges@.take(k as int) =~= ranges@);
    }
    r
}

proof fn lemma_in_ranges_insert(v: Seq<(u32, u32)>, at: int, r: (u32, u32), x: u32)
    requires
        0 <= at <= v.len(),
    ensures
        in_ranges(v.insert(at, r), x) == (in_ranges(v, x) || r.0 <= x <= r.1),
{
    let w = v.insert(at, r);
    if in_ranges(v, x) {
        let i = choose|i: int| 0 <= i < v.len() && (#[trigger] v[i]).0 <= x <= v[i].1;
        let j = if i < at { i } else { i + 1 };
        assert(w[j] == v[i]);
    }
    if r.0 <= x <= r.1 {
        assert(w[at] == r);
    }
    if in_ranges(w, x) {
        let i = choose|i: int| 0 <= i < w.len() && (#[trigger] w[i]).0 <= x <= w[i].1;
        if i < at {
            assert(w[i] == v[i]);
        } else if i > at {
            assert(w[i] == v[i - 1]);
        }
    }
}

/// Merges ranges into ascending ones that neither overlap nor touch and that
/// hold the same numbers.
pub fn merge_ranges(ranges: Vec<(u32, u32)>) -> (r: Vec<(u32, u32)>)
    requires
        forward(ranges@),
    ensures
        separated(r@),
        forall|x: u32| #[trigger] in_ranges(r@, x) == in_ranges(ranges@, x),
{
    let ghost given = ranges@;
    let v: Vec<(u32, u32)> = sort_by_start(ranges);
    let mut r: Vec<(u32, u32)> = Vec::new();
    let mut k: usize = 0;
    while k < v.len()
        invariant
            k <= v.len(),
            forward(v@),
            forall|i: int, j: int|
                0 <= i <= j < v.len() ==> (#[trigger] v@[i]).0 <= (#[trigger] v@[j]).0,
            separated(r@),
            r.len() > 0 ==> k > 0 && r@.last().0 <= v@[k - 1].0,
            forall|x: u32| #[trigger] in_ranges(r@, x) == in_ranges(v@.take(k as int), x),
        decreases v.len() - k,
    {
        let (s, e) = v[k];
        let n: usize = r.len();
        let ghost before = r@;
        if n > 0 && s as u64 <= r[n - 1].1 as u64 + 1 {
            let (s0, e0) = r[n - 1];
            let top: u32 = if e > e0 {
                e
            } else {
                e0
            };
            r.set(n - 1, (s0, top));
            proof {
                assert(v@[k - 1].0 <= v@[k as int].0);
                let head = before.drop_last();
                assert(before =~= head.push((s0, e0)));
                assert(r@ =~= head.push((s0, top)));
                assert forall|x: u32| #[trigger] in_ranges(r@, x) == in_ranges(
                    v@.take(k + 1),
                    x,
                ) by {
                    lemma_in_ranges_push(head, (s0, e0), x);
                    lemma_in_ranges_push(head, (s0, top), x);
                    lemma_in_ranges_push(v@.take(k as int), (s, e), x);
                    assert(v@.take(k + 1) =~= v@.take(k as int).push((s, e)));
                    assert(in_ranges(before, x) == in_ranges(v@.take(k as int), x));
                }
                assert(before[n - 1] == (s0, e0));
                assert(separated(r@)) by {
                    assert(forall|i: int| 0 <= i < n - 1 ==> r@[i] == before[i]);
                }
            }
        } else {
            r.push((s, e));
            proof {
                assert forall|x: u32| #[trigger] in_ranges(r@, x) == in_ranges(
                    v@.take(k + 1),
                    x,
                ) by {
                    lemma_in_ranges_push(before, (s, e), x);
                    lemma_in_ranges_push(v@.take(k as int), (s, e), x);
                    assert(v@.take(k + 1) =~= v@.take(k as int).push((s, e)));
                    assert(in_ranges(before, x) == in_ranges(v@.take(k as int), x));
                }
                assert(separated(r@)) by {
                    assert(forall|i: int| 0 <= i < n ==> r@[i] == before[i]);
                    assert forall|i: int, j: int| 0 <= i < j < r@.len() implies (
                    #[trigger] r@[i]).1 + 1 < (#[trigger] r@[j]).0 by {
                        if j == n {
                            if i < n - 1 {
                                assert(before[i].1 + 1 < before[n - 1].0);
                            }
                            assert(before[n - 1].0 <= before[n - 1].1);
                        } else {
                            assert(before[i].1 + 1 < before[j].0);
                        }
                    }
                }
            }
        }
        k = k + 1;
    }
    proof {
        assert(v@.take(k as int) =~= v@);
        assert forall|x: u32| #[trigger] in_ranges(r@, x) == in_ranges(given, x) by {
            assert(in_ranges(v@, x) == in_ranges(given, x));
        }
    }
    r
}

/// The closed range `a` without the numbers in `b`: up to two ranges.
pub fn subtract_range(a: (u32, u32), b: (u32, u32)) -> (r: Vec<(u32, u32)>)
    requires
        a.0 <= a.1,
        b.0 <= b.1,
    ensures
        r.len() <= 2,
        separated(r@),
        forall|x: u32| #[trigger] in_ranges(r@, x) == (a.0 <= x <= a.1 && !(b.0 <= x <= b.1)),
{
    let mut out: Vec<(u32, u32)> = Vec::new();
    proof {
        assert forall|x: u32| !in_ranges(out@, x) by {}
    }
    if b.1 < a.0 || b.0 > a.1 {
        out.push(a);
        proof {
            assert forall|x: u32| #[trigger] in_ranges(out@, x) == (a.0 <= x <= a.1) by {
                lemma_in_ranges_push(Seq::empty(), a, x);
                assert(out@ =~= Seq::<(u32, u32)>::empty().push(a));
            }
        }
        return out;
    }
    if b.0 > a.0 {
        out.push((a.0, (b.0 - 1) as u32));
    }
    let ghost mid = out@;
    proof {
        assert forall|x: u32| #[trigger] in_ranges(mid, x) == (a.0 <= x < b.0) by {
            if b.0 > a.0 {
                lemma_in_ranges_push(Seq::empty(), (a.0, (b.0 - 1) as u32), x);
                assert(mid =~= Seq::<(u32, u32)>::empty().push((a.0, (b.0 - 1) as u32)));
            }
        }
    }
    if b.1 < a.1 {
        out.push(((b.1 + 1) as u32, a.1));
    }
    proof {
        assert forall|x: u32| #[trigger] in_ranges(out@, x) == (a.0 <= x <= a.1 && !(b.0 <= x
            <= b.1)) by {
            assert(in_ranges(mid, x) == (a.0 <= x < b.0));
            if b.1 < a.1 {
                lemma_in_ranges_push(mid, ((b.1 + 1) as u32, a.1), x);
                assert(out@ =~= mid.push(((b.1 + 1) as u32, a.1)));
            } else {
                assert(out@ =~= mid);
            }
        }
    }
    out
}

/// Whether the list holds the address.
pub fn holds_addr(list: &[Ipv4Addr], ip: Ipv4Addr) -> (r: bool)
    ensures
        r == list@.contains(ip),
{
    let mut i: usize = 0;
    while i < list.len()
        invariant
            i <= list.len(),
            forall|j: int| 0 <= j < i ==> list@[j] != ip,
        decreases list.len() - i,
    {
        if list[i] == ip {
            return true;
        }
        i = i + 1;
    }
    false
}

/// Lists the numbers in ascending disjoint ranges as addresses, without those
/// in `exclude`; at most `cap`.
fn collect_hosts(ranges: &Vec<(u32, u32)>, exclude: &[Ipv4Addr], cap: usize) -> (r: (
    Vec<Ipv4Addr>,
    bool,
))
    requires
        forward(ranges@),
        forall|i: int, j: int|
            0 <= i < j < ranges.len() ==> (#[trigger] ranges@[i]).1 < (#[trigger] ranges@[j]).0,
    ensures
        lowest_wanted(
            r.0@,
            r.1,
            cap as nat,
            |x: u32| in_ranges(ranges@, x) && !exclude@.contains(Ipv4Addr { bits: x }),
        ),
{
    let ghost want = |x: u32| in_ranges(ranges@, x) && !exclude@.contains(Ipv4Addr { bits: x });
    let mut hosts: Vec<Ipv4Addr> = Vec::new();
    let mut k: usize = 0;
    let ghost mut edge: int = 0;
    while k < ranges.len()
        invariant
            k <= ranges.len(),
            forward(ranges@),
            forall|i: int, j: int|
                0 <= i < j < ranges.len() ==> (#[trigger] ranges@[i]).1 < (#[trigger] ranges@[j]).0,
            want == (|x: u32| in_ranges(ranges@, x) && !exclude@.contains(Ipv4Addr { bits: x })),
            hosts.len() <= cap,
            forall|i: int, j: int|
                0 <= i < j < hosts.len() ==> (#[trigger] hosts@[i]).bits < (
                #[trigger] hosts@[j]).bits,
            forall|i: int| 0 <= i < hosts.len() ==> want((#[trigger] hosts@[i]).bits),
            forall|i: int| 0 <= i < hosts.len() ==> (#[trigger] hosts@[i]).bits < edge,
            forall|x: u32| #[trigger] want(x) && x < edge ==> hosts@.contains(Ipv4Addr { bits: x }),
            k == 0 ==> edge == 0,
            k > 0 ==> edge == ranges@[k - 1].1 + 1,
        decreases ranges.len() - k,
    {
        let (s, e) = ranges[k];
        let mut x: u64 = s as u64;
        proof {
            assert forall|y: u32| #[trigger] want(y) && y < s implies y < edge by {
                let i = choose|i: int| 0 <= i < ranges@.len() && (#[trigger] ranges@[i]).0 <= y
                    <= ranges@[i].1;
                if i > k {
                    assert(ranges@[k as int].1 < ranges@[i].0);
                }
                if i < k - 1 {
                    assert(ranges@[i].1 < ranges@[k - 1].0);
                }
            }
            if k > 0 {
                assert(ranges@[k - 1].1 < ranges@[k as int].0);
            }
        }
        while x <= e as u64
            invariant
                k < ranges.len(),
                ranges@[k as int] == (s, e),
                s <= e,
                s <= x <= e + 1,
                want == (|x: u32| in_ranges(ranges@, x) && !exclude@.contains(Ipv4Addr { bits: x })),
                hosts.len() <= cap,
                forall|i: int, j: int|
                    0 <= i < j < hosts.len() ==> (#[trigger] hosts@[i]).bits < (
                    #[trigger] hosts@[j]).bits,
                forall|i: int| 0 <= i < hosts.len() ==> want((#[trigger] hosts@[i]).bits),
                forall|i: int| 0 <= i < hosts.len() ==> (#[trigger] hosts@[i]).bits < x,
                forall|y: u32| #[trigger] want(y) && y < x ==> hosts@.contains(
                    Ipv4Addr { bits: y },
                ),
            decreases e + 1 - x,
        {
            let ip: Ipv4Addr = Ipv4Addr { bits: x as u32 };
            proof {
                assert(ranges@[k as int].0 <= ip.bits <= ranges@[k as int].1);
                assert(in_ranges(ranges@, ip.bits));
            }
            if !holds_addr(exclude, ip) {
                assert(want(ip.bits));
                if hosts.len() >= cap {
                    proof {
                        assert(!hosts@.contains(ip));
                        assert forall|y: u32| #[trigger]
                            want(y) && !hosts@.contains(Ipv4Addr { bits: y }) implies forall|i: int|
                            0 <= i < hosts.len() ==> (#[trigger] hosts@[i]).bits < y by {}
                    }
                    return (hosts, true);
                }
                let ghost before = hosts@;
                hosts.push(ip);
                proof {
                    assert forall|y: u32| #[trigger] want(y) && y < x + 1 implies hosts@.contains(
                        Ipv4Addr { bits: y },
                    ) by {
                        if y < x {
                            assert(before.contains(Ipv4Addr { bits: y }));
                            let i = choose|i: int| 0 <= i < before.len() && before[i] == (
                            Ipv4Addr { bits: y });
                            assert(hosts@[i] == before[i]);
                        } else {
                            assert(hosts@[before.len() as int] == ip);
                        }
                    }
                }
            } else {
                assert(!want(ip.bits));
            }
            x = x + 1;
        }
        proof {
            edge = e + 1;
        }
        k = k + 1;
    }
    proof {
        assert forall|x: u32| #[trigger] want(x) implies x < edge by {
            let i = choose|i: int| 0 <= i < ranges@.len() && (#[trigger] ranges@[i]).0 <= x
                <= ranges@[i].1;
            if i < ranges@.len() - 1 {
                assert(ranges@[i].1 < ranges@[ranges@.len() - 1].0);
            }
        }
    }
    (hosts, false)
}

/// The same addresses are wanted, however the wish is put.
proof fn lemma_wanted_same(
    hosts: Seq<Ipv4Addr>,
    truncated: bool,
    cap: nat,
    p: spec_fn(u32) -> bool,
    q: spec_fn(u32) -> bool,
)
    requires
        lowest_wanted(hosts, truncated, cap, p),
        forall|x: u32| #[trigger] p(x) == #[trigger] q(x),
    ensures
        lowest_wanted(hosts, truncated, cap, q),
{
    assert(p =~= q);
}

// ---------------------------------------------------------------------------
// Entries
// ---------------------------------------------------------------------------

fn bad_ip(line: usize, t: &str) -> (e: ScopeParseError)
    ensures
        e.reports(ScopeFault::BadIp, line as nat, t@),
{
    ScopeParseError::BadIp { line, text: owned(t) }
}

impl ScopeEntry {
    /// Reads one entry. `line` is only reported.
    pub fn parse(text: &str, line: usize) -> (r: Result<Self, ScopeParseError>)
        ensures
            match entry_of(text::trimmed(text@)) {
                Ok(e) => r == Ok::<ScopeEntry, ScopeParseError>(e) && e.valid(),
                Err(f) => r is Err && r->Err_0.reports(f, line as nat, text::trimmed(text@)),
            },
    {
        let t: String = trim(text);
        if let Some((a, p)) = split::split_once(&t, '/') {
            let ip: Ipv4Addr = match Ipv4Addr::parse(&trim(&a)) {
                Some(ip) => ip,
                None => {
                    return Err(bad_ip(line, &t));
                },
            };
            let prefix: u8 = match read_number(&trim(&p), 10, 32) {
                Some(n) => n as u8,
                None => {
                    return Err(ScopeParseError::BadPrefix { line, text: t });
                },
            };
            return Ok(
                ScopeEntry::Cidr {
                    network: Ipv4Addr { bits: ip.bits & prefix_mask(prefix) },
                    prefix,
                },
            );
        }
        if let Some((a, b)) = split::split_once(&t, '-') {
            let start: Ipv4Addr = match Ipv4Addr::parse(&trim(&a)) {
                Some(ip) => ip,
                None => {
                    return Err(bad_ip(line, &t));
                },
            };
            let end: Ipv4Addr = match Ipv4Addr::parse(&trim(&b)) {
                Some(ip) => ip,
                None => {
                    return Err(bad_ip(line, &t));
                },
            };
            if start.bits > end.bits {
                return Err(ScopeParseError::ReversedRange { line, text: t });
            }
            return Ok(ScopeEntry::Range { start, end });
        }
        match Ipv4Addr::parse(&t) {
            Some(ip) => Ok(ScopeEntry::Single(ip)),
            None => if contains_char(&t, '.') || contains_char(&t, ':') {
                Err(bad_ip(line, &t))
            } else {
                Err(ScopeParseError::Malformed { line, text: t })
            },
        }
    }

    /// The lowest and the highest address.
    pub fn bounds(&self) -> (r: (u32, u32))
        requires
            self matches ScopeEntry::Cidr { prefix, .. } ==> prefix <= 32,
        ensures
            r.0 == self.low(),
            r.1 == self.high(),
            self.valid() ==> r.0 <= r.1,
    {
        match self {
            ScopeEntry::Single(ip) => (ip.bits, ip.bits),
            ScopeEntry::Cidr { network, prefix } => {
                let start: u32 = network.bits;
                let mask: u32 = prefix_mask(*prefix);
                proof {
                    lemma_block_bounds(start, mask);
                }
                (start, start | !mask)
            },
            ScopeEntry::Range { start, end } => (start.bits, end.bits),
        }
    }

    /// The number of addresses.
    pub fn size(&self) -> (n: u64)
        requires
            self.valid(),
        ensures
            n == self.count(),
    {
        let (s, e) = self.bounds();
        e as u64 - s as u64 + 1
    }

    /// The entry as it is written, with the host bits of a block cleared.
    pub fn canonical(&self) -> (s: String)
        ensures
            s@ == self.canonical_text(),
    {
        match self {
            ScopeEntry::Single(ip) => ip.to_text(),
            ScopeEntry::Cidr { network, prefix } => {
                let mut s: String = network.to_text();
                s.push('/');
                push_numeral(&mut s, *prefix as u128, 10);
                assert(s@ =~= self.canonical_text());
                s
            },
            ScopeEntry::Range { start, end } => {
                let mut s: String = start.to_text();
                s.push('-');
                s.append(&end.to_text());
                assert(s@ =~= self.canonical_text());
                s
            },
        }
    }
}

impl ScopeParseError {
    /// The message for the user.
    pub fn to_text(&self) -> (s: String)
        ensures
            s@ == self.message(),
    {
        let mut s: String = String::new();
        match self {
            ScopeParseError::BadIp { line, text } => {
                s.append("第 ");
                push_numeral(&mut s, *line as u128, 10);
                s.append(" 行:无法解析 IPv4 地址 `");
                s.append(text);
                s.append("`");
            },
            ScopeParseError::BadPrefix { line, text } => {
                s.append("第 ");
                push_numeral(&mut s, *line as u128, 10);
                s.append(" 行:CIDR 前缀长度非法 `");
                s.append(text);
                s.append("`(应为 0-32)");
            },
            ScopeParseError::ReversedRange { line, text } => {
                s.append("第 ");
                push_numeral(&mut s, *line as u128, 10);
                s.append(" 行:区间起点大于终点 `");
                s.append(text);
                s.append("`");
            },
            ScopeParseError::Malformed { line, text } => {
                s.append("第 ");
                push_numeral(&mut s, *line as u128, 10);
                s.append(" 行:格式无法识别 `");
                s.append(text);
                s.append("`");
            },
            ScopeParseError::TooMany(n) => {
                s.append("条目过多(");
                push_numeral(&mut s, *n as u128, 10);
                s.append(" > ");
                push_numeral(&mut s, MAX_ENTRIES as u128, 10);
                s.append(")");
            },
        }
        assert(s@ =~= self.message());
        s
    }
}

// ---------------------------------------------------------------------------
// Scopes
// ---------------------------------------------------------------------------

/// The entries. What they merge to follows from them.
impl View for NetScope {
    type V = Seq<ScopeEntry>;

    closed spec fn view(&self) -> Seq<ScopeEntry> {
        self.entries@
    }
}

/// Whether a scope with these entries allows the address.
pub open spec fn scope_allows(entries: Seq<ScopeEntry>, x: u32) -> bool {
    entries.len() == 0 || some_entry_holds(entries, x)
}

/// Whether a scope with these entries allows the peer address. One with entries
/// allows no IPv6 address.
pub open spec fn ip_allowed(entries: Seq<ScopeEntry>, ip: IpAddr) -> bool {
    match ip {
        IpAddr::V4(v4) => scope_allows(entries, v4.bits),
        IpAddr::V6(_) => entries.len() == 0,
    }
}

/// Whether a scope with these entries allows every address of a subnet.
pub open spec fn subnet_covered(entries: Seq<ScopeEntry>, ip: Ipv4Addr, netmask: Ipv4Addr) -> bool {
    forall|x: u32|
        network_of(ip.bits, netmask.bits) <= x <= broadcast_of(ip.bits, netmask.bits)
            ==> #[trigger] scope_allows(entries, x)
}

/// The entries that are kept of a list that is read leniently.
pub open spec fn lenient_entries(lines: Seq<Seq<char>>) -> Seq<ScopeEntry> {
    let entries = entries_of(lines);
    if entries.len() > MAX_ENTRIES {
        entries.take(MAX_ENTRIES as int)
    } else {
        entries
    }
}

/// The hosts of a subnet that are in scope, other than some.
pub open spec fn wanted_within(
    entries: Seq<ScopeEntry>,
    ip: Ipv4Addr,
    netmask: Ipv4Addr,
    exclude: Seq<Ipv4Addr>,
) -> spec_fn(u32) -> bool {
    let network = network_of(ip.bits, netmask.bits);
    let broadcast = broadcast_of(ip.bits, netmask.bits);
    |x: u32|
        first_host(network, broadcast) <= x <= last_host(network, broadcast) && some_entry_holds(
            entries,
            x,
        ) && !exclude.contains(Ipv4Addr { bits: x })
}

/// The hosts in scope that are in none of some subnets, of entries that are not
/// too large.
pub open spec fn wanted_outside(
    entries: Seq<ScopeEntry>,
    subnets: Seq<(Ipv4Addr, Ipv4Addr)>,
    cap: nat,
) -> spec_fn(u32) -> bool {
    |x: u32| small_entry_holds(entries, cap, x) && !in_some_subnet(subnets, x)
}

/// The lowest host address of a subnet; a subnet of two or fewer addresses
/// has no addresses set apart.
pub open spec fn first_host(network: u32, broadcast: u32) -> int {
    if broadcast - network < 2 {
        network as int
    } else {
        network + 1
    }
}

/// The highest host address of a subnet.
pub open spec fn last_host(network: u32, broadcast: u32) -> int {
    if broadcast - network < 2 {
        broadcast as int
    } else {
        broadcast - 1
    }
}

/// Whether the address lies in the subnet of some `(address, mask)` pair.
pub open spec fn in_some_subnet(subnets: Seq<(Ipv4Addr, Ipv4Addr)>, x: u32) -> bool {
    exists|i: int|
        0 <= i < subnets.len() && network_of((#[trigger] subnets[i]).0.bits, subnets[i].1.bits) <= x
            <= broadcast_of(subnets[i].0.bits, subnets[i].1.bits)
}

/// Whether an entry of at most `cap` addresses holds the address.
pub open spec fn small_entry_holds(entries: Seq<ScopeEntry>, cap: nat, x: u32) -> bool {
    exists|i: int|
        0 <= i < entries.len() && (#[trigger] entries[i]).count() <= cap && entries[i].holds(x)
}

/// The written forms of the entries with more than `cap` addresses.
pub open spec fn large_entries(entries: Seq<ScopeEntry>, cap: nat) -> Seq<Seq<char>>
    decreases entries.len(),
{
    if entries.len() == 0 {
        Seq::empty()
    } else {
        let before = large_entries(entries.drop_last(), cap);
        if entries.last().count() > cap {
            before.push(entries.last().canonical_text())
        } else {
            before
        }
    }
}

impl HostList {
    /// No addresses.
    pub fn none() -> (r: Self)
        ensures
            r.hosts@.len() == 0,
            !r.truncated,
            r.skipped_entries@.len() == 0,
    {
        HostList { hosts: Vec::new(), truncated: false, skipped_entries: Vec::new() }
    }
}

impl Default for HostList {
    fn default() -> (r: Self)
        ensures
            r.hosts@.len() == 0,
            !r.truncated,
            r.skipped_entries@.len() == 0,
    {
        HostList::none()
    }
}

impl NetScope {
    #[verifier::type_invariant]
    spec fn inv(self) -> bool {
        &&& forall|i: int| 0 <= i < self.entries@.len() ==> (#[trigger] self.entries@[i]).valid()
        &&& separated(self.merged@)
        &&& forall|x: u32| #[trigger]
            in_ranges(self.merged@, x) == some_entry_holds(self.entries@, x)
    }

    /// The scope that allows every address.
    pub fn unrestricted() -> (r: Self)
        ensures
            r@ == Seq::<ScopeEntry>::empty(),
    {
        NetScope { entries: Vec::new(), merged: Vec::new() }
    }

    /// The scope with these entries.
    pub fn from_entries(entries: Vec<ScopeEntry>) -> (r: Self)
        requires
            forall|i: int| 0 <= i < entries@.len() ==> (#[trigger] entries@[i]).valid(),
        ensures
            r@ == entries@,
    {
        let mut ranges: Vec<(u32, u32)> = Vec::new();
        let mut i: usize = 0;
        while i < entries.len()
            invariant
                i <= entries.len(),
                ranges.len() == i,
                forall|i: int| 0 <= i < entries@.len() ==> (#[trigger] entries@[i]).valid(),
                forward(ranges@),
                forall|k: int|
                    0 <= k < i ==> (#[trigger] ranges@[k]).0 == entries@[k].low() && ranges@[k].1
                        == entries@[k].high(),
            decreases entries.len() - i,
        {
            ranges.push(entries[i].bounds());
            i = i + 1;
        }
        let ghost given = ranges@;
        let merged: Vec<(u32, u32)> = merge_ranges(ranges);
        proof {
            assert forall|x: u32| #[trigger] in_ranges(merged@, x) == some_entry_holds(
                entries@,
                x,
            ) by {
                assert(in_ranges(merged@, x) == in_ranges(given, x));
                if in_ranges(given, x) {
                    let k = choose|k: int| 0 <= k < given.len() && (#[trigger] given[k]).0 <= x
                        <= given[k].1;
                    assert(entries@[k].holds(x));
                }
                if some_entry_holds(entries@, x) {
                    let k = choose|k: int| 0 <= k < entries@.len() && (
                    #[trigger] entries@[k]).holds(x);
                    assert(given[k].0 <= x <= given[k].1);
                }
            }
        }
        NetScope { entries, merged }
    }

    /// Reads a list strictly: the first faulty line refuses the whole list.
    /// Blank lines are skipped.
    pub fn parse(lines: &[String]) -> (r: Result<Self, ScopeParseError>)
        ensures
            ({
                let given = text::texts(lines@);
                let faults = faults_of(given);
                let entries = entries_of(given);
                if faults.len() > 0 {
                    r is Err && r->Err_0.reports(faults[0].1, faults[0].0, faults[0].2)
                } else if entries.len() > MAX_ENTRIES {
                    r is Err && r->Err_0 == ScopeParseError::TooMany(entries.len() as usize)
                } else {
                    r is Ok && r->Ok_0@ == entries
                }
            }),
    {
        let mut entries: Vec<ScopeEntry> = Vec::new();
        let mut i: usize = 0;
        let ghost given = text::texts(lines@);
        proof {
            assert(given.take(0) =~= Seq::<Seq<char>>::empty());
        }
        while i < lines.len()
            invariant
                i <= lines.len(),
                given == text::texts(lines@),
                entries@ == entries_of(given.take(i as int)),
                faults_of(given.take(i as int)).len() == 0,
                entries.len() <= i,
                forall|k: int| 0 <= k < entries@.len() ==> (#[trigger] entries@[k]).valid(),
            decreases lines.len() - i,
        {
            let t: String = trim(&lines[i]);
            proof {
                let cur = given.take(i + 1);
                assert(cur.drop_last() =~= given.take(i as int));
                assert(cur.last() == lines@[i as int]@);
                lemma_trimmed_twice(lines@[i as int]@);
            }
            if t.as_str().is_empty() {
                i = i + 1;
                continue;
            }
            match ScopeEntry::parse(&t, i + 1) {
                Ok(e) => {
                    entries.push(e);
                },
                Err(e) => {
                    proof {
                        lemma_first_fault(given, i + 1);
                    }
                    return Err(e);
                },
            }
            i = i + 1;
        }
        proof {
            assert(given.take(i as int) =~= given);
        }
        if entries.len() > MAX_ENTRIES {
            return Err(ScopeParseError::TooMany(entries.len()));
        }
        Ok(NetScope::from_entries(entries))
    }

    /// Reads a list leniently: faulty lines are left out and reported, in
    /// order; of too many entries the first `MAX_ENTRIES` are kept.
    pub fn parse_lenient(lines: &[String]) -> (r: (Self, Vec<ScopeParseError>))
        ensures
            ({
                let given = text::texts(lines@);
                let faults = faults_of(given);
                let entries = entries_of(given);
                &&& forall|k: int|
                    0 <= k < faults.len() ==> (#[trigger] r.1@[k]).reports(
                        faults[k].1,
                        faults[k].0,
                        faults[k].2,
                    )
                &&& r.0@ == lenient_entries(given)
                &&& if entries.len() > MAX_ENTRIES {
                    &&& r.1@.len() == faults.len() + 1
                    &&& r.1@.last() == ScopeParseError::TooMany(entries.len() as usize)
                } else {
                    r.1@.len() == faults.len()
                }
            }),
    {
        let mut entries: Vec<ScopeEntry> = Vec::new();
        let mut errors: Vec<ScopeParseError> = Vec::new();
        let mut i: usize = 0;
        let ghost given = text::texts(lines@);
        proof {
            assert(given.take(0) =~= Seq::<Seq<char>>::empty());
        }
        while i < lines.len()
            invariant
                i <= lines.len(),
                given == text::texts(lines@),
                entries@ == entries_of(given.take(i as int)),
                entries.len() <= i,
                forall|k: int| 0 <= k < entries@.len() ==> (#[trigger] entries@[k]).valid(),
                errors.len() == faults_of(given.take(i as int)).len(),
                forall|k: int|
                    0 <= k < errors.len() ==> ({
                        let f = faults_of(given.take(i as int))[k];
                        (#[trigger] errors@[k]).reports(f.1, f.0, f.2)
                    }),
            decreases lines.len() - i,
        {
            let t: String = trim(&lines[i]);
            proof {
                let cur = given.take(i + 1);
                assert(cur.drop_last() =~= given.take(i as int));
                assert(cur.last() == lines@[i as int]@);
                lemma_trimmed_twice(lines@[i as int]@);
            }
            if t.as_str().is_empty() {
                i = i + 1;
                continue;
            }
            match ScopeEntry::parse(&t, i + 1) {
                Ok(e) => {
                    entries.push(e);
                },
                Err(e) => {
                    errors.push(e);
                },
            }
            i = i + 1;
        }
        proof {
            assert(given.take(i as int) =~= given);
        }
        if entries.len() > MAX_ENTRIES {
            errors.push(ScopeParseError::TooMany(entries.len()));
            entries.truncate(MAX_ENTRIES);
            proof {
                assert(entries@ =~= entries_of(given).take(MAX_ENTRIES as int));
            }
        }
        (NetScope::from_entries(entries), errors)
    }

    /// Whether every address is allowed.
    pub fn is_unrestricted(&self) -> (r: bool)
        ensures
            r == (self@.len() == 0),
    {
        self.entries.len() == 0
    }

    /// The entries, as they were given.
    pub fn entries(&self) -> (r: &[ScopeEntry])
        ensures
            r@ == self@,
    {
        self.entries.as_slice()
    }

    /// Whether the peer address is allowed. A scope with entries allows no
    /// IPv6 address.
    pub fn allows(&self, ip: IpAddr) -> (r: bool)
        ensures
            r == ip_allowed(self@, ip),
    {
        match ip {
            IpAddr::V4(v4) => self.allows_v4(v4),
            IpAddr::V6(_) => self.is_unrestricted(),
        }
    }

    /// Whether the peer address is allowed.
    pub fn allows_v4(&self, ip: Ipv4Addr) -> (r: bool)
        ensures
            r == scope_allows(self@, ip.bits),
    {
        if self.is_unrestricted() {
            return true;
        }
        proof {
            use_type_invariant(self);
            assert(in_ranges(self.merged@, ip.bits) == some_entry_holds(self.entries@, ip.bits));
        }
        match self.containing_range(ip.bits) {
            Some(_) => true,
            None => false,
        }
    }

    /// The merged range that holds `x`, found by bisection.
    fn containing_range(&self, x: u32) -> (r: Option<(u32, u32)>)
        ensures
            match r {
                Some(range) => range.0 <= x <= range.1 && self.merged@.contains(range),
                None => !in_ranges(self.merged@, x),
            },
    {
        proof {
            use_type_invariant(self);
        }
        let mut lo: usize = 0;
        let mut hi: usize = self.merged.len();
        while lo < hi
            invariant
                lo <= hi <= self.merged.len(),
                separated(self.merged@),
                forall|i: int| 0 <= i < lo ==> (#[trigger] self.merged@[i]).0 <= x,
                forall|i: int| hi <= i < self.merged.len() ==> (#[trigger] self.merged@[i]).0 > x,
            decreases hi - lo,
        {
            let mid: usize = lo + (hi - lo) / 2;
            if self.merged[mid].0 <= x {
                proof {
                    assert forall|i: int| 0 <= i < mid + 1 implies (
                    #[trigger] self.merged@[i]).0 <= x by {
                        if i < mid {
                            assert(self.merged@[i].1 + 1 < self.merged@[mid as int].0);
                            assert(self.merged@[i].0 <= self.merged@[i].1);
                        }
                    }
                }
                lo = mid + 1;
            } else {
                proof {
                    assert forall|i: int| mid <= i < self.merged.len() implies (
                    #[trigger] self.merged@[i]).0 > x by {
                        if i > mid {
                            assert(self.merged@[mid as int].1 + 1 < self.merged@[i].0);
                            assert(self.merged@[mid as int].0 <= self.merged@[mid as int].1);
                        }
                    }
                }
                hi = mid;
            }
        }
        if lo == 0 {
            return None;
        }
        let range: (u32, u32) = self.merged[lo - 1];
        if x <= range.1 {
            proof {
                assert(self.merged@[lo - 1] == range);
            }
            Some(range)
        } else {
            proof {
                assert forall|i: int| 0 <= i < self.merged@.len() implies !((
                #[trigger] self.merged@[i]).0 <= x <= self.merged@[i].1) by {
                    if i < lo - 1 {
                        assert(self.merged@[i].1 + 1 < self.merged@[lo - 1].0);
                    }
                }
            }
            None
        }
    }

    /// Whether every address of the subnet is allowed.
    pub fn covers_subnet(&self, ip: Ipv4Addr, netmask: Ipv4Addr) -> (r: bool)
        ensures
            r == subnet_covered(self@, ip, netmask),
    {
        proof {
            use_type_invariant(self);
        }
        if self.is_unrestricted() {
            return true;
        }
        let (network, broadcast) = subnet_bounds(ip, netmask);
        match self.containing_range(network) {
            Some((start, end)) => {
                if end >= broadcast {
                    proof {
                        let k = choose|k: int| 0 <= k < self.merged@.len() && self.merged@[k] == (
                            start,
                            end,
                        );
                        assert forall|x: u32| network <= x <= broadcast implies #[trigger] scope_allows(
                            self@,
                            x,
                        ) by {
                            assert(self.merged@[k].0 <= x <= self.merged@[k].1);
                            assert(in_ranges(self.merged@, x));
                        }
                    }
                    true
                } else {
                    proof {
                        let k = choose|k: int| 0 <= k < self.merged@.len() && self.merged@[k] == (
                            start,
                            end,
                        );
                        let x = (end + 1) as u32;
                        assert(!in_ranges(self.merged@, x)) by {
                            if in_ranges(self.merged@, x) {
                                let i = choose|i: int| 0 <= i < self.merged@.len() && (
                                #[trigger] self.merged@[i]).0 <= x <= self.merged@[i].1;
                                if i < k {
                                    assert(self.merged@[i].1 + 1 < self.merged@[k].0);
                                } else if i > k {
                                    assert(self.merged@[k].1 + 1 < self.merged@[i].0);
                                }
                            }
                        }
                        assert(!scope_allows(self@, x));
                    }
                    false
                }
            },
            None => {
                proof {
                    assert(!scope_allows(self@, network));
                }
                false
            },
        }
    }

    /// The allowed host addresses of a subnet in ascending order, without those
    /// in `exclude`; at most `cap`. Nothing is listed for an unrestricted scope.
    pub fn hosts_within(
        &self,
        ip: Ipv4Addr,
        netmask: Ipv4Addr,
        exclude: &[Ipv4Addr],
        cap: usize,
    ) -> (r: HostList)
        ensures
            r.skipped_entries@.len() == 0,
            self@.len() == 0 ==> r.hosts@.len() == 0 && !r.truncated,
            self@.len() > 0 ==> lowest_wanted(
                r.hosts@,
                r.truncated,
                cap as nat,
                wanted_within(self@, ip, netmask, exclude@),
            ),
    {
        proof {
            use_type_invariant(self);
        }
        if self.is_unrestricted() {
            return HostList::none();
        }
        let (network, broadcast) = subnet_bounds(ip, netmask);
        let (lo, hi) = if broadcast - network < 2 {
            (network, broadcast)
        } else {
            ((network + 1) as u32, (broadcast - 1) as u32)
        };
        let mut pieces: Vec<(u32, u32)> = Vec::new();
        let mut i: usize = 0;
        while i < self.merged.len()
            invariant
                i <= self.merged.len(),
                lo <= hi,
                separated(self.merged@),
                forward(pieces@),
                forall|a: int, b: int|
                    0 <= a < b < pieces.len() ==> (#[trigger] pieces@[a]).1 < (
                    #[trigger] pieces@[b]).0,
                pieces.len() > 0 ==> i > 0 && pieces@.last().1 <= self.merged@[i - 1].1,
                forall|x: u32| #[trigger]
                    in_ranges(pieces@, x) == (lo <= x <= hi && in_ranges(
                        self.merged@.take(i as int),
                        x,
                    )),
            decreases self.merged.len() - i,
        {
            let (s, e) = self.merged[i];
            let a: u32 = if s > lo {
                s
            } else {
                lo
            };
            let b: u32 = if e < hi {
                e
            } else {
                hi
            };
            let ghost before = pieces@;
            if a <= b {
                pieces.push((a, b));
                proof {
                    if i > 0 {
                        assert(self.merged@[i - 1].1 + 1 < self.merged@[i as int].0);
                    }
                    assert forall|p: int, q: int| 0 <= p < q < pieces.len() implies (
                    #[trigger] pieces@[p]).1 < (#[trigger] pieces@[q]).0 by {
                        if q == before.len() {
                            if p < before.len() - 1 {
                                assert(before[p].1 < before[before.len() - 1].0);
                                assert(before[before.len() - 1].0 <= before[before.len() - 1].1);
                            }
                        } else {
                            assert(before[p].1 < before[q].0);
                        }
                    }
                }
            } else {
                proof {
                    if i > 0 {
                        assert(self.merged@[i - 1].1 + 1 < self.merged@[i as int].0);
                    }
                    assert(self.merged@[i as int].0 <= self.merged@[i as int].1);
                }
            }
            proof {
                assert forall|x: u32| #[trigger] in_ranges(pieces@, x) == (lo <= x <= hi
                    && in_ranges(self.merged@.take(i + 1), x)) by {
                    assert(self.merged@.take(i + 1) =~= self.merged@.take(i as int).push((s, e)));
                    lemma_in_ranges_push(self.merged@.take(i as int), (s, e), x);
                    assert(in_ranges(before, x) == (lo <= x <= hi && in_ranges(
                        self.merged@.take(i as int),
                        x,
                    )));
                    if a <= b {
                        lemma_in_ranges_push(before, (a, b), x);
                    }
                }
            }
            i = i + 1;
        }
        let (hosts, truncated) = collect_hosts(&pieces, exclude, cap);
        proof {
            assert(self.merged@.take(i as int) =~= self.merged@);
            let p = |x: u32| in_ranges(pieces@, x) && !exclude@.contains(Ipv4Addr { bits: x });
            let q = |x: u32|
                first_host(network, broadcast) <= x <= last_host(network, broadcast)
                    && some_entry_holds(self@, x) && !exclude@.contains(Ipv4Addr { bits: x });
            assert forall|x: u32| #[trigger] p(x) == #[trigger] q(x) by {
                assert(in_ranges(pieces@, x) == (lo <= x <= hi && in_ranges(self.merged@, x)));
                assert(in_ranges(self.merged@, x) == some_entry_holds(self.entries@, x));
            }
            lemma_wanted_same(hosts@, truncated, cap as nat, p, q);
        }
        HostList { hosts, truncated, skipped_entries: Vec::new() }
    }

    /// The allowed addresses outside the given subnets, in ascending order; at
    /// most `cap`. Entries of more than `cap` addresses are not listed but
    /// reported. Nothing is listed for an unrestricted scope.
    pub fn hosts_outside(&self, subnets: &[(Ipv4Addr, Ipv4Addr)], cap: usize) -> (r: HostList)
        ensures
            text::texts(r.skipped_entries@) == large_entries(self@, cap as nat),
            self@.len() == 0 ==> r.hosts@.len() == 0 && !r.truncated,
            lowest_wanted(
                r.hosts@,
                r.truncated,
                cap as nat,
                wanted_outside(self@, subnets@, cap as nat),
            ),
    {
        proof {
            use_type_invariant(self);
        }
        let mut skipped: Vec<String> = Vec::new();
        let mut pieces: Vec<(u32, u32)> = Vec::new();
        let mut i: usize = 0;
        proof {
            assert(self.entries@.take(0) =~= Seq::<ScopeEntry>::empty());
            assert(text::texts(skipped@) =~= Seq::<Seq<char>>::empty());
        }
        while i < self.entries.len()
            invariant
                i <= self.entries.len(),
                forall|k: int|
                    0 <= k < self.entries@.len() ==> (#[trigger] self.entries@[k]).valid(),
                text::texts(skipped@) == large_entries(self.entries@.take(i as int), cap as nat),
                forward(pieces@),
                forall|x: u32| #[trigger]
                    in_ranges(pieces@, x) == (small_entry_holds(
                        self.entries@.take(i as int),
                        cap as nat,
                        x,
                    ) && !in_some_subnet(subnets@, x)),
            decreases self.entries.len() - i,
        {
            let entry: ScopeEntry = self.entries[i];
            let ghost now = self.entries@.take(i + 1);
            proof {
                assert(now.drop_last() =~= self.entries@.take(i as int));
                assert(now.last() == entry);
            }
            if entry.size() > cap as u64 {
                let ghost before = skipped@;
                skipped.push(entry.canonical());
                proof {
                    assert(text::texts(skipped@) =~= text::texts(before).push(
                        entry.canonical_text(),
                    ));
                    assert forall|x: u32| small_entry_holds(now, cap as nat, x)
                        == small_entry_holds(self.entries@.take(i as int), cap as nat, x) by {
                        lemma_small_entry_push(self.entries@.take(i as int), entry, cap as nat, x);
                        assert(now =~= self.entries@.take(i as int).push(entry));
                    }
                }
                i = i + 1;
                continue;
            }
            let rest: Vec<(u32, u32)> = outside_subnets(entry.bounds(), subnets);
            let ghost before = pieces@;
            let mut j: usize = 0;
            while j < rest.len()
                invariant
                    j <= rest.len(),
                    forward(rest@),
                    forward(pieces@),
                    forall|x: u32| #[trigger]
                        in_ranges(pieces@, x) == (in_ranges(before, x) || in_ranges(
                            rest@.take(j as int),
                            x,
                        )),
                decreases rest.len() - j,
            {
                let ghost mid = pieces@;
                pieces.push(rest[j]);
                proof {
                    assert forall|x: u32| #[trigger] in_ranges(pieces@, x) == (in_ranges(before, x)
                        || in_ranges(rest@.take(j + 1), x)) by {
                        assert(rest@.take(j + 1) =~= rest@.take(j as int).push(rest@[j as int]));
                        lemma_in_ranges_push(rest@.take(j as int), rest@[j as int], x);
                        lemma_in_ranges_push(mid, rest@[j as int], x);
                        assert(in_ranges(mid, x) == (in_ranges(before, x) || in_ranges(
                            rest@.take(j as int),
                            x,
                        )));
                    }
                }
                j = j + 1;
            }
            proof {
                assert(rest@.take(j as int) =~= rest@);
                assert forall|x: u32| #[trigger] in_ranges(pieces@, x) == (small_entry_holds(
                    now,
                    cap as nat,
                    x,
                ) && !in_some_subnet(subnets@, x)) by {
                    lemma_small_entry_push(self.entries@.take(i as int), entry, cap as nat, x);
                    assert(now =~= self.entries@.take(i as int).push(entry));
                    assert(in_ranges(before, x) == (small_entry_holds(
                        self.entries@.take(i as int),
                        cap as nat,
                        x,
                    ) && !in_some_subnet(subnets@, x)));
                    assert(in_ranges(rest@, x) == (entry.holds(x) && !in_some_subnet(subnets@, x)));
                }
            }
            i = i + 1;
        }
        let ghost given = pieces@;
        let merged: Vec<(u32, u32)> = merge_ranges(pieces);
        let none: Vec<Ipv4Addr> = Vec::new();
        proof {
            assert forall|a: int, b: int| 0 <= a < b < merged@.len() implies (
            #[trigger] merged@[a]).1 < (#[trigger] merged@[b]).0 by {}
        }
        let (hosts, truncated) = collect_hosts(&merged, none.as_slice(), cap);
        proof {
            assert(self.entries@.take(i as int) =~= self.entries@);
            let p = |x: u32| in_ranges(merged@, x) && !none@.contains(Ipv4Addr { bits: x });
            let q = |x: u32|
                small_entry_holds(self@, cap as nat, x) && !in_some_subnet(subnets@, x);
            assert forall|x: u32| #[trigger] p(x) == #[trigger] q(x) by {
                assert(in_ranges(merged@, x) == in_ranges(given, x));
            }
            lemma_wanted_same(hosts@, truncated, cap as nat, p, q);
            if self@.len() == 0 {
                assert(forall|x: u32| !(#[trigger] q(x)));
                assert(hosts@.len() == 0) by {
                    if hosts@.len() > 0 {
                        assert(q(hosts@[0].bits));
                    }
                }
            }
        }
        HostList { hosts, truncated, skipped_entries: skipped }
    }
}

impl Clone for NetScope {
    fn clone(&self) -> (r: Self)
        ensures
            r@ == self@,
    {
        proof {
            use_type_invariant(self);
        }
        let entries: Vec<ScopeEntry> = self.entries.clone();
        proof {
            assert(entries@ =~= self.entries@);
        }
        NetScope::from_entries(entries)
    }
}

impl Default for NetScope {
    fn default() -> (r: Self)
        ensures
            r@ == Seq::<ScopeEntry>::empty(),
    {
        NetScope::unrestricted()
    }
}

proof fn lemma_small_entry_push(v: Seq<ScopeEntry>, e: ScopeEntry, cap: nat, x: u32)
    ensures
        small_entry_holds(v.push(e), cap, x) == (small_entry_holds(v, cap, x) || (e.count() <= cap
            && e.holds(x))),
{
    let w = v.push(e);
    if small_entry_holds(v, cap, x) {
        let i = choose|i: int|
            0 <= i < v.len() && (#[trigger] v[i]).count() <= cap && v[i].holds(x);
        assert(w[i] == v[i]);
    }
    if e.count() <= cap && e.holds(x) {
        assert(w[v.len() as int] == e);
    }
    if small_entry_holds(w, cap, x) {
        let i = choose|i: int|
            0 <= i < w.len() && (#[trigger] w[i]).count() <= cap && w[i].holds(x);
        if i < v.len() {
            assert(w[i] == v[i]);
        }
    }
}

/// The parts of a range that lie in none of the subnets.
fn outside_subnets(range: (u32, u32), subnets: &[(Ipv4Addr, Ipv4Addr)]) -> (r: Vec<(u32, u32)>)
    requires
        range.0 <= range.1,
    ensures
        forward(r@),
        forall|x: u32| #[trigger]
            in_ranges(r@, x) == (range.0 <= x <= range.1 && !in_some_subnet(subnets@, x)),
{
    let mut r: Vec<(u32, u32)> = Vec::new();
    r.push(range);
    let mut k: usize = 0;
    proof {
        assert forall|x: u32| #[trigger] in_ranges(r@, x) == (range.0 <= x <= range.1) by {
            lemma_in_ranges_push(Seq::empty(), range, x);
            assert(r@ =~= Seq::<(u32, u32)>::empty().push(range));
        }
    }
    while k < subnets.len()
        invariant
            k <= subnets.len(),
            forward(r@),
            forall|x: u32| #[trigger]
                in_ranges(r@, x) == (range.0 <= x <= range.1 && !in_some_subnet(
                    subnets@.take(k as int),
                    x,
                )),
        decreases subnets.len() - k,
    {
        let (ip, mask) = subnets[k];
        let sub: (u32, u32) = subnet_bounds(ip, mask);
        let ghost before = r@;
        let mut next: Vec<(u32, u32)> = Vec::new();
        let mut i: usize = 0;
        while i < r.len()
            invariant
                i <= r.len(),
                sub.0 <= sub.1,
                forward(r@),
                forward(next@),
                forall|x: u32| #[trigger]
                    in_ranges(next@, x) == (in_ranges(r@.take(i as int), x) && !(sub.0 <= x
                        <= sub.1)),
            decreases r.len() - i,
        {
            let parts: Vec<(u32, u32)> = subtract_range(r[i], sub);
            let ghost start = next@;
            let mut j: usize = 0;
            while j < parts.len()
                invariant
                    j <= parts.len(),
                    forward(parts@),
                    forward(next@),
                    forall|x: u32| #[trigger]
                        in_ranges(next@, x) == (in_ranges(start, x) || in_ranges(
                            parts@.take(j as int),
                            x,
                        )),
                decreases parts.len() - j,
            {
                let ghost mid = next@;
                next.push(parts[j]);
                proof {
                    assert forall|x: u32| #[trigger] in_ranges(next@, x) == (in_ranges(start, x)
                        || in_ranges(parts@.take(j + 1), x)) by {
                        assert(parts@.take(j + 1) =~= parts@.take(j as int).push(parts@[j as int]));
                        lemma_in_ranges_push(parts@.take(j as int), parts@[j as int], x);
                        lemma_in_ranges_push(mid, parts@[j as int], x);
                        assert(in_ranges(mid, x) == (in_ranges(start, x) || in_ranges(
                            parts@.take(j as int),
                            x,
                        )));
                    }
                }
                j = j + 1;
            }
            proof {
                assert(parts@.take(j as int) =~= parts@);
                assert forall|x: u32| #[trigger] in_ranges(next@, x) == (in_ranges(
                    r@.take(i + 1),
                    x,
                ) && !(sub.0 <= x <= sub.1)) by {
                    assert(r@.take(i + 1) =~= r@.take(i as int).push(r@[i as int]));
                    lemma_in_ranges_push(r@.take(i as int), r@[i as int], x);
                    assert(in_ranges(start, x) == (in_ranges(r@.take(i as int), x) && !(sub.0 <= x
                        <= sub.1)));
                    assert(in_ranges(parts@, x) == (r@[i as int].0 <= x <= r@[i as int].1 && !(sub.0
                        <= x <= sub.1)));
                }
            }
            i = i + 1;
        }
        proof {
            assert(r@.take(i as int) =~= r@);
            assert forall|x: u32| #[trigger] in_ranges(next@, x) == (range.0 <= x <= range.1
                && !in_some_subnet(subnets@.take(k + 1), x)) by {
                assert(in_ranges(before, x) == (range.0 <= x <= range.1 && !in_some_subnet(
                    subnets@.take(k as int),
                    x,
                )));
                lemma_in_some_subnet_push(subnets@.take(k as int), (ip, mask), x);
                assert(subnets@.take(k + 1) =~= subnets@.take(k as int).push((ip, mask)));
            }
        }
        r = next;
        k = k + 1;
    }
    proof {
        assert(subnets@.take(k as int) =~= subnets@);
    }
    r
}

proof fn lemma_in_some_subnet_push(v: Seq<(Ipv4Addr, Ipv4Addr)>, s: (Ipv4Addr, Ipv4Addr), x: u32)
    ensures
        in_some_subnet(v.push(s), x) == (in_some_subnet(v, x) || network_of(s.0.bits, s.1.bits) <= x
            <= broadcast_of(s.0.bits, s.1.bits)),
{
    let w = v.push(s);
    if in_some_subnet(v, x) {
        let i = choose|i: int|
            0 <= i < v.len() && network_of((#[trigger] v[i]).0.bits, v[i].1.bits) <= x
                <= broadcast_of(v[i].0.bits, v[i].1.bits);
        assert(w[i] == v[i]);
    }
    if network_of(s.0.bits, s.1.bits) <= x <= broadcast_of(s.0.bits, s.1.bits) {
        assert(w[v.len() as int] == s);
    }
    if in_some_subnet(w, x) {
        let i = choose|i: int|
            0 <= i < w.len() && network_of((#[trigger] w[i]).0.bits, w[i].1.bits) <= x
                <= broadcast_of(w[i].0.bits, w[i].1.bits);
        if i < v.len() {
            assert(w[i] == v[i]);
        }
    }
}

/// Reading an entry as it is written gives the entry back. A block has no host
/// bits; reading clears them.
#[verifier::spinoff_prover]
pub proof fn law_canonical_text_is_read_back(e: ScopeEntry)
    requires
        e.valid(),
        e matches ScopeEntry::Cidr { network, prefix } ==> network_of(
            network.bits,
            mask_of(prefix),
        ) == network.bits,
    ensures
        text::trimmed(e.canonical_text()) == e.canonical_text(),
        entry_of(e.canonical_text()) == Ok::<ScopeEntry, ScopeFault>(e),
{
    match e {
        ScopeEntry::Single(ip) => {
            let a = addr::ipv4_text(ip.bits as nat);
            addr::lemma_ipv4_text_chars(ip.bits as nat);
            addr::law_ipv4_text_round_trip(ip);
            split::lemma_split_last(a, '/');
            split::lemma_split_last(a, '-');
            text::lemma_trimmed_of_plain(a);
        },
        ScopeEntry::Cidr { network, prefix } => {
            let a = addr::ipv4_text(network.bits as nat);
            let p = numeral::decimal(prefix as nat);
            addr::lemma_ipv4_text_chars(network.bits as nat);
            addr::law_ipv4_text_round_trip(network);
            numeral::lemma_numeral_value(prefix as nat, 10);
            numeral::lemma_parse_numeral(prefix as nat, 10, 32);
            split::lemma_split_piece(a, '/', p);
            text::lemma_trimmed_of_plain(a);
            text::lemma_trimmed_of_plain(p);
            text::lemma_trimmed_of_plain(e.canonical_text());
        },
        ScopeEntry::Range { start, end } => {
            let a = addr::ipv4_text(start.bits as nat);
            let b = addr::ipv4_text(end.bits as nat);
            addr::lemma_ipv4_text_chars(start.bits as nat);
            addr::lemma_ipv4_text_chars(end.bits as nat);
            addr::law_ipv4_text_round_trip(start);
            addr::law_ipv4_text_round_trip(end);
            split::lemma_split_last(e.canonical_text(), '/');
            split::lemma_split_piece(a, '-', b);
            text::lemma_trimmed_of_plain(a);
            text::lemma_trimmed_of_plain(b);
            text::lemma_trimmed_of_plain(e.canonical_text());
        },
    }
}

/// Whatever was read, writing it down and reading it again gives the same entry.
pub proof fn law_read_entry_is_written_and_read_back(t: Seq<char>)
    ensures
        entry_of(t) matches Ok(e) ==> e.valid() && entry_of(e.canonical_text()) == Ok::<
            ScopeEntry,
            ScopeFault,
        >(e),
{
    if let Ok(e) = entry_of(t) {
        if let ScopeEntry::Cidr { network, prefix } = e {
            let (a, p) = split::split_once_at(t, '/')->Some_0;
            let ip = addr::ipv4_of_text(text::trimmed(a))->Some_0.bits;
            let n = numeral::parse_number(text::trimmed(p), 10, 32)->Some_0;
            assert(n <= 32);
            let mask = mask_of(prefix);
            assert((ip & mask) & mask == ip & mask) by (bit_vector);
        }
        law_canonical_text_is_read_back(e);
    }
}

/// Trimming a trimmed text changes nothing.
proof fn lemma_trimmed_twice(s: Seq<char>)
    ensures
        text::trimmed(text::trimmed(s)) == text::trimmed(s),
{
    text::lemma_trimmed_idempotent(s);
}

/// The first fault of a list is the first fault of any part of its start that has one.
proof fn lemma_first_fault(lines: Seq<Seq<char>>, n: int)
    requires
        0 <= n <= lines.len(),
        faults_of(lines.take(n)).len() > 0,
    ensures
        faults_of(lines).len() > 0,
        faults_of(lines)[0] == faults_of(lines.take(n))[0],
    decreases lines.len() - n,
{
    if n < lines.len() {
        assert(lines.take(n + 1).drop_last() =~= lines.take(n));
        lemma_first_fault(lines, n + 1);
    } else {
        assert(lines.take(n) =~= lines);
    }
}

/// A block holds exactly the addresses that agree with it in its leading bits. As many bits
/// count as the prefix says: a prefix of 32 holds one address, one of zero holds all.
pub proof fn law_block_holds_its_subnet(network: Ipv4Addr, prefix: u8, x: u32)
    requires
        prefix <= 32,
        network.bits & mask_of(prefix) == network.bits,
    ensures
        (ScopeEntry::Cidr { network, prefix }).holds(x) <==> x & mask_of(prefix) == network.bits,
        prefix == 0 ==> (ScopeEntry::Cidr { network, prefix }).holds(x),
        prefix == 32 ==> ((ScopeEntry::Cidr { network, prefix }).holds(x) <==> x == network.bits),
        1 <= prefix ==> mask_of(prefix) == 0xFFFF_FFFFu32 << ((32 - prefix) as u32),
{
    let n = network.bits;
    let m = mask_of(prefix);
    if prefix == 0 {
        assert(n & 0u32 == n ==> n == 0 && (n | !0u32) == 0xFFFF_FFFFu32 && x & 0u32 == 0) by (
        bit_vector);
    } else {
        let sh = (32 - prefix) as u32;
        assert(m == 0xFFFF_FFFFu32 << sh);
        assert(sh < 32 && m == 0xFFFF_FFFFu32 << sh && n & m == n ==> (n <= x && x <= (n | !m)
            <==> x & m == n)) by (bit_vector);
        if prefix == 32 {
            assert(0xFFFF_FFFFu32 << 0u32 == 0xFFFF_FFFFu32) by (bit_vector);
            assert(x & 0xFFFF_FFFFu32 == x) by (bit_vector);
        }
    }
}

/// A block is read from an address and a prefix, whatever host bits the address has: they are
/// cleared, and the block holds the address. A prefix above 32 is refused.
pub proof fn law_block_is_read_around_an_address(ip: Ipv4Addr, n: nat)
    ensures
        ({
            let t = addr::ipv4_text(ip.bits as nat) + seq!['/'] + numeral::decimal(n);
            &&& n <= 32 ==> (entry_of(t) matches Ok(e) && (e matches ScopeEntry::Cidr {
                network,
                prefix,
            } && prefix == n && network.bits & mask_of(prefix) == network.bits) && e.holds(ip.bits))
            &&& n > 32 ==> entry_of(t) == Err::<ScopeEntry, ScopeFault>(ScopeFault::BadPrefix)
        }),
{
    let a = addr::ipv4_text(ip.bits as nat);
    let p = numeral::decimal(n);
    addr::lemma_ipv4_text_chars(ip.bits as nat);
    addr::law_ipv4_text_round_trip(ip);
    numeral::lemma_numeral_value(n, 10);
    split::lemma_split_piece(a, '/', p);
    text::lemma_trimmed_of_plain(a);
    text::lemma_trimmed_of_plain(p);
    assert(p[0] != '+');
    if n <= 32 {
        numeral::lemma_parse_numeral(n, 10, 32);
        let bits = ip.bits;
        let m = mask_of(n as u8);
        assert((bits & m) & m == bits & m) by (bit_vector);
        law_block_holds_its_subnet(Ipv4Addr { bits: bits & m }, n as u8, bits);
    }
}

/// A range is read from its two ends and holds them and what lies between, and nothing else;
/// one that runs backwards is refused.
pub proof fn law_range_is_read_from_its_ends(start: Ipv4Addr, end: Ipv4Addr, x: u32)
    ensures
        ({
            let t = addr::ipv4_text(start.bits as nat) + seq!['-'] + addr::ipv4_text(
                end.bits as nat,
            );
            &&& start.bits <= end.bits ==> (entry_of(t) matches Ok(e) && (e.holds(x) <==> start.bits
                <= x <= end.bits))
            &&& start.bits > end.bits ==> entry_of(t) == Err::<ScopeEntry, ScopeFault>(
                ScopeFault::ReversedRange,
            )
        }),
{
    let a = addr::ipv4_text(start.bits as nat);
    let b = addr::ipv4_text(end.bits as nat);
    let t = a + seq!['-'] + b;
    addr::lemma_ipv4_text_chars(start.bits as nat);
    addr::lemma_ipv4_text_chars(end.bits as nat);
    addr::law_ipv4_text_round_trip(start);
    addr::law_ipv4_text_round_trip(end);
    split::lemma_split_last(t, '/');
    split::lemma_split_piece(a, '-', b);
    text::lemma_trimmed_of_plain(a);
    text::lemma_trimmed_of_plain(b);
}

/// An address that stands alone is read as itself, and holds itself and no other.
pub proof fn law_address_is_read_as_itself(ip: Ipv4Addr, x: u32)
    ensures
        entry_of(addr::ipv4_text(ip.bits as nat)) matches Ok(e) && (e.holds(x) <==> x == ip.bits)
            && e.count() == 1,
{
    law_canonical_text_is_read_back(ScopeEntry::Single(ip));
}

/// Lines are read one by one and independently: what two lists give together is what the one
/// gives and then what the other gives, the lines of the second counted on from those of the
/// first.
pub proof fn law_lines_are_read_one_by_one(a: Seq<Seq<char>>, b: Seq<Seq<char>>)
    ensures
        entries_of(a + b) == entries_of(a) + entries_of(b),
        faults_of(a + b).len() == faults_of(a).len() + faults_of(b).len(),
        faults_of(a + b).take(faults_of(a).len() as int) == faults_of(a),
        forall|i: int|
            0 <= i < faults_of(b).len() ==> {
                let f = #[trigger] faults_of(b)[i];
                faults_of(a + b)[faults_of(a).len() + i] == (a.len() + f.0, f.1, f.2)
            },
    decreases b.len(),
{
    if b.len() == 0 {
        assert(a + b =~= a);
        assert(entries_of(a) + entries_of(b) =~= entries_of(a));
        assert(faults_of(a).take(faults_of(a).len() as int) =~= faults_of(a));
    } else {
        let c = b.drop_last();
        law_lines_are_read_one_by_one(a, c);
        assert((a + b).drop_last() =~= a + c);
        assert((a + b).last() == b.last());
        assert(entries_of(a + b) =~= entries_of(a) + entries_of(b));
        assert(faults_of(a + b).take(faults_of(a).len() as int) =~= faults_of(a + c).take(
            faults_of(a).len() as int,
        ));
        assert forall|i: int| 0 <= i < faults_of(b).len() implies {
            let f = #[trigger] faults_of(b)[i];
            faults_of(a + b)[faults_of(a).len() + i] == (a.len() + f.0, f.1, f.2)
        } by {
            if i < faults_of(c).len() {
                assert(faults_of(b)[i] == faults_of(c)[i]);
            }
        }
    }
}

/// A line gives nothing if it is blank, its entry if it is sound, and else the fault, under
/// its number: white space around it does not count.
pub proof fn law_line_gives_an_entry_or_a_fault(line: Seq<char>)
    ensures
        text::trimmed(line).len() == 0 ==> entries_of(seq![line]).len() == 0 && faults_of(
            seq![line],
        ).len() == 0,
        text::trimmed(line).len() > 0 ==> match entry_of(text::trimmed(line)) {
            Ok(e) => entries_of(seq![line]) == seq![e] && faults_of(seq![line]).len() == 0,
            Err(f) => entries_of(seq![line]).len() == 0 && faults_of(seq![line]) == seq![
                (1nat, f, text::trimmed(line)),
            ],
        },
{
    let one = seq![line];
    assert(one.drop_last() =~= Seq::<Seq<char>>::empty());
    assert(entries_of(one.drop_last()) =~= Seq::<ScopeEntry>::empty());
    assert(faults_of(one.drop_last()) =~= Seq::<(nat, ScopeFault, Seq<char>)>::empty());
    assert(one.last() == line);
}

/// A scope without entries allows every address. One with entries allows an address exactly
/// if it is one of IPv4 that lies in one of them; so a further entry never takes anything
/// away from a scope that restricts, and allows what it holds.
pub proof fn law_scope_allows_what_its_entries_hold(
    entries: Seq<ScopeEntry>,
    e: ScopeEntry,
    ip: Ipv4Addr,
    v6: u128,
)
    ensures
        entries.len() == 0 ==> ip_allowed(entries, IpAddr::V4(ip)) && ip_allowed(
            entries,
            IpAddr::V6(v6),
        ),
        entries.len() > 0 ==> !ip_allowed(entries, IpAddr::V6(v6)),
        entries.len() > 0 ==> (ip_allowed(entries, IpAddr::V4(ip)) <==> exists|i: int|
            0 <= i < entries.len() && (#[trigger] entries[i]).low() <= ip.bits
                <= entries[i].high()),
        ip_allowed(entries.push(e), IpAddr::V4(ip)) <==> e.holds(ip.bits) || (entries.len() > 0
            && ip_allowed(entries, IpAddr::V4(ip))),
{
    let x = ip.bits;
    let w = entries.push(e);
    if some_entry_holds(entries, x) {
        let i = choose|i: int| 0 <= i < entries.len() && (#[trigger] entries[i]).holds(x);
        assert(w[i].holds(x));
        assert(entries[i].low() <= x <= entries[i].high());
    }
    if e.holds(x) {
        assert(w[entries.len() as int].holds(x));
    }
    if some_entry_holds(w, x) {
        let i = choose|i: int| 0 <= i < w.len() && (#[trigger] w[i]).holds(x);
        if i < entries.len() {
            assert(entries[i].holds(x));
        }
    }
    if exists|i: int|
        0 <= i < entries.len() && (#[trigger] entries[i]).low() <= x <= entries[i].high() {
        let i = choose|i: int|
            0 <= i < entries.len() && (#[trigger] entries[i]).low() <= x <= entries[i].high();
        assert(entries[i].holds(x));
    }
}

/// The hosts of a subnet are its addresses without the lowest and the highest, but where it
/// has no more than two addresses they are all hosts.
pub proof fn law_hosts_of_a_subnet(network: u32, broadcast: u32, x: u32)
    requires
        network <= broadcast,
    ensures
        broadcast - network >= 2 ==> (first_host(network, broadcast) <= x <= last_host(
            network,
            broadcast,
        ) <==> network < x < broadcast),
        broadcast - network < 2 ==> (first_host(network, broadcast) <= x <= last_host(
            network,
            broadcast,
        ) <==> network <= x <= broadcast),
{
}

/// Under a mask of leading ones the subnet of an address goes from the lowest to the highest
/// of the addresses that agree with it under the mask, and holds the address itself.
pub proof fn law_subnet_holds_its_addresses(ip: u32, prefix: u8, x: u32)
    requires
        prefix <= 32,
    ensures
        network_of(ip, mask_of(prefix)) <= x <= broadcast_of(ip, mask_of(prefix)) <==> x & mask_of(
            prefix,
        ) == ip & mask_of(prefix),
        network_of(ip, mask_of(prefix)) <= ip <= broadcast_of(ip, mask_of(prefix)),
{
    let m = mask_of(prefix);
    assert((ip & m) & m == ip & m) by (bit_vector);
    law_block_holds_its_subnet(Ipv4Addr { bits: ip & m }, prefix, x);
    law_block_holds_its_subnet(Ipv4Addr { bits: ip & m }, prefix, ip);
}

/// A list that is read leniently keeps its sound entries, from the first on, up to the most
/// that a scope may have; it loses none as long as there are no more.
pub proof fn law_lenient_list_keeps_sound_entries(lines: Seq<Seq<char>>, i: int)
    ensures
        lenient_entries(lines).len() == (if entries_of(lines).len() > MAX_ENTRIES {
            MAX_ENTRIES as nat
        } else {
            entries_of(lines).len()
        }),
        0 <= i < lenient_entries(lines).len() ==> lenient_entries(lines)[i] == entries_of(lines)[i],
{
}

/// What holds neither a slash nor a dash and is no address is told apart by its looks: with a dot
/// or a colon in it, it was meant to be an address; otherwise it is no entry at all.
pub proof fn law_faults_are_told_apart(t: Seq<char>)
    requires
        !t.contains('/'),
        !t.contains('-'),
        addr::ipv4_of_text(t) is None,
    ensures
        t.contains('.') || t.contains(':') ==> entry_of(t) == Err::<ScopeEntry, ScopeFault>(
            ScopeFault::BadIp,
        ),
        !t.contains('.') && !t.contains(':') ==> entry_of(t) == Err::<ScopeEntry, ScopeFault>(
            ScopeFault::Malformed,
        ),
{
    split::lemma_split_last(t, '/');
    split::lemma_split_last(t, '-');
}

/// An entry is written without white space.
pub proof fn law_entries_are_written_tightly(e: ScopeEntry, i: int)
    requires
        0 <= i < e.canonical_text().len(),
    ensures
        !text::is_white(e.canonical_text()[i]),
{
    match e {
        ScopeEntry::Single(ip) => {
            addr::lemma_ipv4_text_chars(ip.bits as nat);
        },
        ScopeEntry::Cidr { network, prefix } => {
            addr::lemma_ipv4_text_chars(network.bits as nat);
            numeral::lemma_numeral_value(prefix as nat, 10);
        },
        ScopeEntry::Range { start, end } => {
            addr::lemma_ipv4_text_chars(start.bits as nat);
            addr::lemma_ipv4_text_chars(end.bits as nat);
        },
    }
}

/// The entries that are left out for their size are named exactly: each one that holds more than
/// so many addresses, as it is written.
pub proof fn law_large_entries_are_named(entries: Seq<ScopeEntry>, cap: nat, t: Seq<char>)
    ensures
        large_entries(entries, cap).contains(t) <==> exists|i: int|
            0 <= i < entries.len() && (#[trigger] entries[i]).high() - entries[i].low() + 1 > cap
                && entries[i].canonical_text() == t,
    decreases entries.len(),
{
    let all = large_entries(entries, cap);
    if entries.len() > 0 {
        let d = entries.drop_last();
        let before = large_entries(d, cap);
        law_large_entries_are_named(d, cap, t);
        assert(forall|i: int| 0 <= i < d.len() ==> #[trigger] d[i] == entries[i]);
        assert(entries[entries.len() - 1] == entries.last());
        if before.contains(t) {
            let k = choose|k: int| 0 <= k < before.len() && before[k] == t;
            assert(all[k] == t);
            let i = choose|i: int|
                0 <= i < d.len() && (#[trigger] d[i]).high() - d[i].low() + 1 > cap
                    && d[i].canonical_text() == t;
            assert(entries[i] == d[i]);
        }
        if all.contains(t) && !before.contains(t) {
            let k = choose|k: int| 0 <= k < all.len() && all[k] == t;
            if k < before.len() {
                assert(before[k] == t);
            }
            assert(entries[entries.len() - 1].canonical_text() == t);
        }
        if exists|i: int|
            0 <= i < entries.len() && (#[trigger] entries[i]).high() - entries[i].low() + 1 > cap
                && entries[i].canonical_text() == t {
            let i = choose|i: int|
                0 <= i < entries.len() && (#[trigger] entries[i]).high() - entries[i].low() + 1
                    > cap && entries[i].canonical_text() == t;
            if i < d.len() {
                assert(d[i] == entries[i]);
            } else {
                assert(all[all.len() - 1] == t);
            }
        }
    }
}

} // verus!
