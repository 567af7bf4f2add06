//! What stands between the library and a front end: the commands that a front
//! end calls, and the channels on which it is told of events.

use crate::addr;
use crate::hub::Core;
use crate::net_ifaces;
use crate::net_ifaces::{IfaceView, Interface};
use crate::net_scope;
use crate::net_scope::{NetScope, ScopeEntry};
use crate::numeral;
use crate::numeral::decimal_of;
use crate::order;
use crate::settings::Settings;
use crate::storage;
use crate::storage::{HistoryItem, SearchHit, StorageError};
use crate::text;
use crate::text::owned;
use crate::transport::manager;
use crate::transport::manager::TransportEvent;
use vstd::prelude::*;
use vstd::string::StringExecFns;

verus! {

/// How many records a page of history holds where the front end does not say.
pub const PAGE_LIMIT: u32 = 50;

/// How many records are shown before a found one.
pub const AROUND_HALF: u32 = 25;

/// How many records a search brings at most.
pub const SEARCH_LIMIT: u32 = 100;

/// The least time between two lists of peers that are handed to the front end.
pub const ROSTER_PUSH_MILLIS: u64 = 200;

// ---------------------------------------------------------------------------
// Channels
// ---------------------------------------------------------------------------

/// The channel of an event; a frame of a group has none.
pub open spec fn channel_of(ev: manager::EventRow) -> Option<Seq<char>> {
    match ev {
        manager::EventRow::Message { .. } => Some("message://received"@),
        manager::EventRow::FileOffered { .. } => Some("file://offered"@),
        manager::EventRow::FileProgress { .. } => Some("file://progress"@),
        manager::EventRow::FileDone { .. } => Some("file://done"@),
        manager::EventRow::FileFailed { .. } => Some("file://failed"@),
        manager::EventRow::GroupsChanged(_) => Some("group://updated"@),
        manager::EventRow::Group { .. } => None,
    }
}

/// The channel on which the front end is told of the event. A frame of a group
/// is not for the front end.
pub fn channel(ev: &TransportEvent) -> (r: Option<&'static str>)
    ensures
        match r {
            Some(name) => channel_of(ev@) == Some(name@),
            None => channel_of(ev@) is None,
        },
{
    match ev {
        TransportEvent::Message(_) => Some("message://received"),
        TransportEvent::FileOffered { .. } => Some("file://offered"),
        TransportEvent::FileProgress { .. } => Some("file://progress"),
        TransportEvent::FileDone { .. } => Some("file://done"),
        TransportEvent::FileFailed { .. } => Some("file://failed"),
        TransportEvent::GroupsChanged(_) => Some("group://updated"),
        TransportEvent::Group { .. } => None,
    }
}

// ---------------------------------------------------------------------------
// Commands
// ---------------------------------------------------------------------------

/// The answer to a ping: `pong v` and the version of the protocol.
pub fn ping() -> (r: String)
    ensures
        r@ == "pong v"@ + numeral::decimal(crate::PROTOCOL_VERSION as nat),
{
    let mut s = owned("pong v");
    s.append(decimal_of(crate::PROTOCOL_VERSION as u64).as_str());
    s
}

/// The first of three texts that is there, else the empty text.
pub open spec fn first_there(
    a: Option<Seq<char>>,
    b: Option<Seq<char>>,
    c: Option<Seq<char>>,
) -> Seq<char> {
    match (a, b, c) {
        (Some(x), _, _) => x,
        (None, Some(y), _) => y,
        (None, None, Some(z)) => z,
        (None, None, None) => Seq::empty(),
    }
}

/// Where received files are put: as set, else in the system's directory for
/// downloads, else in the home directory.
pub fn default_download_dir(s: &Settings, system: Option<&str>, home: Option<&str>) -> (r: String)
    ensures
        r@ == first_there(
            text::opt_text(s.download_dir),
            storage::opt_str(system),
            storage::opt_str(home),
        ),
{
    match &s.download_dir {
        Some(dir) => owned(dir.as_str()),
        None => match system {
            Some(dir) => owned(dir),
            None => match home {
                Some(dir) => owned(dir),
                None => {
                    proof {
                        reveal_strlit("");
                        assert(""@ =~= Seq::<char>::empty());
                    }
                    owned("")
                },
            },
        },
    }
}

/// The cursor that a front end gives: none without a time; the id is empty
/// where it is not given.
pub open spec fn given_cursor(ts_ms: Option<i64>, id: Option<Seq<char>>) -> Option<
    (i64, Seq<char>),
> {
    match ts_ms {
        None => None,
        Some(t) => Some(
            (
                t,
                match id {
                    Some(i) => i,
                    None => Seq::empty(),
                },
            ),
        ),
    }
}

/// A page of a conversation: the last records before the cursor, in order. An
/// id without a time is ignored.
pub fn get_history(
    core: &Core,
    fingerprint: &str,
    before_ts_ms: Option<i64>,
    before_id: Option<&str>,
    limit: Option<u32>,
) -> (r: Vec<HistoryItem>)
    ensures
        exists|t: Seq<storage::ItemRow>| #[trigger]
            storage::is_timeline(
                core@.records,
                storage::part_of(
                    fingerprint@,
                    given_cursor(before_ts_ms, storage::opt_str(before_id)),
                ),
                t,
            ) && storage::item_rows(r@) == storage::last_of(
                t,
                (match limit {
                    Some(n) => n,
                    None => PAGE_LIMIT,
                }) as int,
            ),
{
    proof {
        reveal_strlit("");
        assert(""@ =~= Seq::<char>::empty());
    }
    let id: &str = match before_id {
        Some(i) => i,
        None => "",
    };
    let before: Option<(i64, &str)> = match before_ts_ms {
        Some(t) => Some((t, id)),
        None => None,
    };
    let n: u32 = match limit {
        Some(n) => n,
        None => PAGE_LIMIT,
    };
    core.storage().history(fingerprint, before, n)
}

/// The records around a found one.
pub fn get_history_around(core: &Core, fingerprint: &str, ts_ms: i64) -> (r: Vec<HistoryItem>)
    ensures
        exists|t: Seq<storage::ItemRow>, u: Seq<storage::ItemRow>|
            storage::is_timeline(
                core@.records,
                storage::part_of(fingerprint@, Some((ts_ms, Seq::<char>::empty()))),
                t,
            ) && storage::is_timeline(core@.records, storage::part_from(fingerprint@, ts_ms), u)
                && storage::item_rows(r@) == #[trigger] storage::last_of(t, AROUND_HALF as int)
                + #[trigger] storage::first_of(u, AROUND_HALF + 1),
{
    core.storage().history_around(fingerprint, ts_ms, AROUND_HALF)
}

/// The latest records that hold the text, or why it cannot be searched for.
pub fn search_history(core: &Core, query: &str) -> (r: Result<Vec<SearchHit>, String>)
    ensures
        exists|t: Seq<storage::ItemRow>, found: Result<Vec<SearchHit>, StorageError>|
            storage::is_timeline(core@.records, storage::everything(), t)
                && #[trigger] storage::is_search_result(found, t, query@, SEARCH_LIMIT) && match (
                r,
                found,
            ) {
                (Ok(hits), Ok(f)) => hits == f,
                (Err(why), Err(e)) => why@ == e.message(),
                _ => false,
            },
{
    match core.storage().search(query, SEARCH_LIMIT) {
        Ok(hits) => Ok(hits),
        Err(e) => Err(e.to_text()),
    }
}

// ---------------------------------------------------------------------------
// Settings
// ---------------------------------------------------------------------------

/// What the user is told of a faulty line.
pub open spec fn fault_text(fault: net_scope::ScopeFault, line: nat, t: Seq<char>) -> Seq<char> {
    "第 "@ + numeral::decimal(line) + (match fault {
        net_scope::ScopeFault::BadIp => " 行:无法解析 IPv4 地址 `"@,
        net_scope::ScopeFault::BadPrefix => " 行:CIDR 前缀长度非法 `"@,
        net_scope::ScopeFault::ReversedRange => " 行:区间起点大于终点 `"@,
        net_scope::ScopeFault::Malformed => " 行:格式无法识别 `"@,
    }) + t + (match fault {
        net_scope::ScopeFault::BadPrefix => "`(应为 0-32)"@,
        _ => "`"@,
    })
}

/// What is wrong with a list of allowed networks, if anything: the first
/// faulty line, or that it is too long.
pub open spec fn complaint(lines: Seq<Seq<char>>) -> Option<Seq<char>> {
    let faults = net_scope::faults_of(lines);
    let entries = net_scope::entries_of(lines);
    if faults.len() > 0 {
        Some(fault_text(faults[0].1, faults[0].0, faults[0].2))
    } else if entries.len() > net_scope::MAX_ENTRIES {
        Some(
            "条目过多("@ + numeral::decimal(entries.len()) + " > "@ + numeral::decimal(
                net_scope::MAX_ENTRIES as nat,
            ) + ")"@,
        )
    } else {
        None
    }
}

proof fn lemma_entries_len(lines: Seq<Seq<char>>)
    ensures
        net_scope::entries_of(lines).len() <= lines.len(),
    decreases lines.len(),
{
    if lines.len() > 0 {
        lemma_entries_len(lines.drop_last());
    }
}

proof fn lemma_fault_text(
    e: net_scope::ScopeParseError,
    fault: net_scope::ScopeFault,
    line: nat,
    t: Seq<char>,
)
    requires
        e.reports(fault, line, t),
    ensures
        e.message() == fault_text(fault, line, t),
{
}

/// The scope of a list of allowed networks, or what the user is told is wrong
/// with it.
fn read_scope(lines: &[String]) -> (r: Result<NetScope, String>)
    ensures
        match r {
            Ok(scope) => complaint(text::texts(lines@)) is None && scope@ == net_scope::entries_of(
                text::texts(lines@),
            ),
            Err(why) => complaint(text::texts(lines@)) == Some(why@),
        },
{
    let ghost given = text::texts(lines@);
    let ghost faults = net_scope::faults_of(given);
    let count: usize = lines.len();
    match NetScope::parse(lines) {
        Ok(scope) => Ok(scope),
        Err(e) => {
            let why = e.to_text();
            proof {
                lemma_entries_len(given);
                if faults.len() > 0 {
                    lemma_fault_text(e, faults[0].1, faults[0].0, faults[0].2);
                } else {
                    assert(net_scope::entries_of(given).len() <= count);
                }
            }
            Err(why)
        },
    }
}

/// The texts of entries as they are written.
pub open spec fn written(entries: Seq<ScopeEntry>) -> Seq<Seq<char>> {
    entries.map_values(|e: ScopeEntry| e.canonical_text())
}

proof fn lemma_written_push(done: Seq<String>, s: String, entries: Seq<ScopeEntry>, i: int)
    requires
        0 <= i < entries.len(),
        text::texts(done) == written(entries.take(i)),
        s@ == entries[i].canonical_text(),
    ensures
        text::texts(done.push(s)) == written(entries.take(i + 1)),
{
    assert(entries.take(i + 1) =~= entries.take(i).push(entries[i]));
    assert(written(entries.take(i + 1)) =~= written(entries.take(i)).push(s@));
    assert(text::texts(done.push(s)) =~= text::texts(done).push(s@));
}

/// Checks a list of allowed networks: its entries as they are written, or what
/// is wrong with it.
pub fn validate_allowed_networks(lines: &[String]) -> (r: Result<Vec<String>, String>)
    ensures
        match r {
            Ok(list) => complaint(text::texts(lines@)) is None && text::texts(list@) == written(
                net_scope::entries_of(text::texts(lines@)),
            ),
            Err(why) => complaint(text::texts(lines@)) == Some(why@),
        },
{
    let scope = match read_scope(lines) {
        Ok(scope) => scope,
        Err(why) => {
            return Err(why);
        },
    };
    let entries: &[ScopeEntry] = scope.entries();
    let mut out: Vec<String> = Vec::new();
    let mut i: usize = 0;
    assert(text::texts(out@) =~= written(entries@.take(0)));
    while i < entries.len()
        invariant
            i <= entries.len(),
            text::texts(out@) == written(entries@.take(i as int)),
        decreases entries.len() - i,
    {
        let e: ScopeEntry = entries[i];
        let s = e.canonical();
        let ghost done = out@;
        out.push(s);
        proof {
            lemma_written_push(done, s, entries@, i as int);
        }
        i = i + 1;
    }
    assert(entries@.take(i as int) =~= entries@);
    Ok(out)
}

/// What is to be done with new settings.
#[derive(Debug, Clone, PartialEq)]
pub enum SettingsStep {
    /// They are refused, for that reason.
    Refuse(String),
    /// They are to be saved.
    Save,
    /// They are to be put to work.
    Apply,
}

/// New settings are checked, then saved, then put to work; `saved` is how
/// saving went, once it was tried. Faulty settings are never saved, and
/// settings that were not saved are never put to work.
pub fn set_settings(value: &Settings, saved: Option<Result<(), String>>) -> (r: SettingsStep)
    ensures
        match complaint(text::texts(value.allowed_networks@)) {
            Some(why) => r matches SettingsStep::Refuse(w) && w@ == why,
            None => match saved {
                None => r is Save,
                Some(Err(e)) => r matches SettingsStep::Refuse(w) && w@ == e@,
                Some(Ok(_)) => r is Apply,
            },
        },
{
    if let Err(why) = read_scope(value.allowed_networks.as_slice()) {
        return SettingsStep::Refuse(why);
    }
    match saved {
        None => SettingsStep::Save,
        Some(Err(e)) => SettingsStep::Refuse(e),
        Some(Ok(_)) => SettingsStep::Apply,
    }
}

/// A list that was found sound is written down as a sound list of the same
/// entries.
pub proof fn law_written_networks_are_sound(lines: Seq<Seq<char>>)
    requires
        complaint(lines) is None,
    ensures
        complaint(written(net_scope::entries_of(lines))) is None,
        net_scope::entries_of(written(net_scope::entries_of(lines))) == net_scope::entries_of(
            lines,
        ),
{
    let entries = net_scope::entries_of(lines);
    lemma_entries_readable(lines);
    lemma_written_entries(entries);
}

/// Whether an entry is read back as it is written.
spec fn readable(e: ScopeEntry) -> bool {
    text::trimmed(e.canonical_text()) == e.canonical_text() && e.canonical_text().len() > 0
        && net_scope::entry_of(e.canonical_text()) == Ok::<ScopeEntry, net_scope::ScopeFault>(e)
}

proof fn lemma_entry_readable(t: Seq<char>)
    ensures
        net_scope::entry_of(t) matches Ok(e) ==> readable(e),
{
    if let Ok(e) = net_scope::entry_of(t) {
        net_scope::law_read_entry_is_written_and_read_back(t);
        addr::lemma_ipv4_text_chars(e.low() as nat);
    }
}

proof fn lemma_entries_readable(lines: Seq<Seq<char>>)
    ensures
        forall|i: int|
            0 <= i < net_scope::entries_of(lines).len() ==> readable(
                #[trigger] net_scope::entries_of(lines)[i],
            ),
    decreases lines.len(),
{
    if lines.len() > 0 {
        lemma_entries_readable(lines.drop_last());
        lemma_entry_readable(text::trimmed(lines.last()));
        let before = net_scope::entries_of(lines.drop_last());
        let all = net_scope::entries_of(lines);
        assert forall|i: int| 0 <= i < all.len() implies readable(#[trigger] all[i]) by {
            if i < before.len() {
                assert(all[i] == before[i]);
            }
        }
    }
}

proof fn lemma_written_entries(entries: Seq<ScopeEntry>)
    requires
        forall|i: int| 0 <= i < entries.len() ==> readable(#[trigger] entries[i]),
    ensures
        net_scope::faults_of(written(entries)).len() == 0,
        net_scope::entries_of(written(entries)) == entries,
    decreases entries.len(),
{
    if entries.len() > 0 {
        let before = entries.drop_last();
        lemma_written_entries(before);
        assert(written(entries).drop_last() =~= written(before));
        assert(readable(entries[entries.len() - 1]));
        assert(before.push(entries.last()) =~= entries);
    } else {
        assert(written(entries) =~= Seq::<Seq<char>>::empty());
    }
}

// ---------------------------------------------------------------------------
// Interfaces
// ---------------------------------------------------------------------------

/// An interface for the front end.
#[derive(Debug, Clone, PartialEq)]
pub struct IfaceDto {
    pub name: String,
    pub ip: String,
    pub netmask: String,
    pub is_virtual: bool,
    pub excluded: bool,
}

/// An interface for the front end, by value.
#[verifier::ext_equal]
pub struct IfaceDtoRow {
    pub name: Seq<char>,
    pub ip: Seq<char>,
    pub netmask: Seq<char>,
    pub is_virtual: bool,
    pub excluded: bool,
}

impl View for IfaceDto {
    type V = IfaceDtoRow;

    open spec fn view(&self) -> IfaceDtoRow {
        IfaceDtoRow {
            name: self.name@,
            ip: self.ip@,
            netmask: self.netmask@,
            is_virtual: self.is_virtual,
            excluded: self.excluded,
        }
    }
}

/// A shown interface, with its addresses in text.
pub open spec fn dto_row(v: net_ifaces::ShownRow) -> IfaceDtoRow {
    IfaceDtoRow {
        name: v.name,
        ip: addr::ipv4_text(v.ip.bits as nat),
        netmask: addr::ipv4_text(v.netmask.bits as nat),
        is_virtual: v.is_virtual_hint,
        excluded: v.excluded,
    }
}

/// All interfaces, excluded or not, for the front end.
pub fn list_network_interfaces(core: &Core, ifaces: &[Interface]) -> (r: Vec<IfaceDto>)
    ensures
        r@.map_values(|d: IfaceDto| d@) == order::sorted(
            net_ifaces::shown_rows(ifaces@, core@.excluded),
            |a: net_ifaces::ShownRow, b: net_ifaces::ShownRow| net_ifaces::shown_before(a, b),
        ).map_values(|v: net_ifaces::ShownRow| dto_row(v)),
{
    let views = core.list_interfaces(ifaces);
    let ghost shown = views@.map_values(|v: IfaceView| v@);
    let mut out: Vec<IfaceDto> = Vec::new();
    let mut i: usize = 0;
    while i < views.len()
        invariant
            i <= views.len(),
            out@.len() == i,
            forall|k: int| 0 <= k < i ==> (#[trigger] out@[k])@ == dto_row(views@[k]@),
        decreases views.len() - i,
    {
        let v: &IfaceView = &views[i];
        out.push(
            IfaceDto {
                name: owned(v.name.as_str()),
                ip: v.ip.to_text(),
                netmask: v.netmask.to_text(),
                is_virtual: v.is_virtual_hint,
                excluded: v.excluded,
            },
        );
        i = i + 1;
    }
    assert(out@.map_values(|d: IfaceDto| d@) =~= shown.map_values(
        |v: net_ifaces::ShownRow| dto_row(v),
    ));
    out
}

/// Every event but a frame of a group goes to the front end, and each kind of event has a
/// channel of its own.
pub proof fn law_channels_tell_events_apart(a: manager::EventRow, b: manager::EventRow)
    ensures
        channel_of(a) is None <==> a is Group,
        channel_of(a) is Some && channel_of(a) == channel_of(b) ==> {
            &&& a is Message <==> b is Message
            &&& a is FileOffered <==> b is FileOffered
            &&& a is FileProgress <==> b is FileProgress
            &&& a is FileDone <==> b is FileDone
            &&& a is FileFailed <==> b is FileFailed
            &&& a is GroupsChanged <==> b is GroupsChanged
        },
{
    reveal_strlit("message://received");
    reveal_strlit("file://offered");
    reveal_strlit("file://progress");
    reveal_strlit("file://done");
    reveal_strlit("file://failed");
    reveal_strlit("group://updated");
    assert("message://received"@.len() == 18 && "file://offered"@.len() == 14);
    assert("file://progress"@.len() == 15 && "file://done"@.len() == 11);
    assert("file://failed"@.len() == 13 && "group://updated"@.len() == 15);
    assert("file://progress"@[0] == 'f' && "group://updated"@[0] == 'g');
}

/// A list of networks is complained of exactly if one of its lines is faulty or it has too many
/// entries; and a list of which nothing is complained keeps all its entries, and no line
/// of it is passed over but blank ones.
pub proof fn law_complaint_is_of_a_faulty_line(lines: Seq<Seq<char>>)
    ensures
        complaint(lines) is Some <==> net_scope::faults_of(lines).len() > 0
            || net_scope::entries_of(lines).len() > net_scope::MAX_ENTRIES,
        complaint(lines) is None ==> net_scope::lenient_entries(lines) == net_scope::entries_of(
            lines,
        ),
{
}

/// The directory that the user has set comes first, then that of the system, then the home
/// directory; a cursor without a time is none, and one without an id begins with the time.
pub proof fn law_first_choice_counts(
    set: Option<Seq<char>>,
    system: Option<Seq<char>>,
    home: Option<Seq<char>>,
    ts_ms: Option<i64>,
    id: Option<Seq<char>>,
)
    ensures
        set is Some ==> first_there(set, system, home) == set->0,
        set is None && system is Some ==> first_there(set, system, home) == system->0,
        set is None && system is None && home is Some ==> first_there(set, system, home) == home->0,
        given_cursor(ts_ms, id) is Some <==> ts_ms is Some,
        given_cursor(ts_ms, id) matches Some((t, i)) ==> ts_ms == Some(t) && (id is Some ==> id
            == Some(i)) && (id is None ==> i.len() == 0),
{
}

/// A shown interface is shown with its own name and marks, and its address and mask can be read
/// back.
pub proof fn law_shown_interface_is_readable(v: net_ifaces::ShownRow)
    ensures
        dto_row(v).name == v.name,
        addr::ipv4_of_text(dto_row(v).ip) == Some(v.ip),
        addr::ipv4_of_text(dto_row(v).netmask) == Some(v.netmask),
        dto_row(v).is_virtual == v.is_virtual_hint,
        dto_row(v).excluded == v.excluded,
{
    addr::law_ipv4_text_round_trip(v.ip);
    addr::law_ipv4_text_round_trip(v.netmask);
}

/// A complaint about a line says what the fault itself says of it: the number of the line and the
/// text that is wrong stand in it.
pub proof fn law_complaint_says_what_the_fault_says(
    e: net_scope::ScopeParseError,
    fault: net_scope::ScopeFault,
    line: nat,
    t: Seq<char>,
)
    requires
        e.reports(fault, line, t),
    ensures
        e.message() == fault_text(fault, line, t),
        text::contains_text(fault_text(fault, line, t), numeral::decimal(line)),
        text::contains_text(fault_text(fault, line, t), t),
{
    let n = numeral::decimal(line);
    let all = fault_text(fault, line, t);
    let a = "第 "@.len() as int;
    let middle = match fault {
        net_scope::ScopeFault::BadIp => " 行:无法解析 IPv4 地址 `"@,
        net_scope::ScopeFault::BadPrefix => " 行:CIDR 前缀长度非法 `"@,
        net_scope::ScopeFault::ReversedRange => " 行:区间起点大于终点 `"@,
        net_scope::ScopeFault::Malformed => " 行:格式无法识别 `"@,
    };
    assert(all.subrange(a, a + n.len()) =~= n);
    assert(text::occurs_at(all, n, a));
    let b = a + n.len() + middle.len();
    assert(all.subrange(b, b + t.len()) =~= t);
    assert(text::occurs_at(all, t, b));
    assert(e.message() =~= all);
}

} // verus!
