//! The service record by which peers find each other over multicast DNS: what
//! it says of us, what is read from those of others, and on which interfaces
//! it is not shown.

use crate::addr::IpAddr;
use crate::net_ifaces::holds_name;
use crate::roster;
use crate::roster::{DiscoveryEvent, Protocol};
use crate::table::{Keyed, Table};
use crate::text;
use crate::text::{copy_texts, less_text, owned, same_text};
use crate::utf8;
use crate::utf8::truncated;
use vstd::prelude::*;
use vstd::string::StringExecFns;

verus! {

/// The type of the service.
pub const SERVICE_TYPE: &'static str = "_bigpaw._tcp.local.";

/// The fingerprint is too short to name a service.
#[derive(Debug, Clone, Copy, PartialEq, Eq, Structural)]
pub struct ShortFingerprint;

impl ShortFingerprint {
    /// The message for the user.
    pub fn to_text(&self) -> (r: String)
        ensures
            r@ == "fingerprint 短于 16 字符"@,
    {
        owned("fingerprint 短于 16 字符")
    }
}

// ---------------------------------------------------------------------------
// Our own record
// ---------------------------------------------------------------------------

/// A property of a service.
#[derive(Debug, Clone, PartialEq, Eq)]
pub struct Property {
    pub key: String,
    pub value: String,
}

/// A service record.
#[derive(Debug, Clone, PartialEq, Eq)]
pub struct ServiceRecord {
    pub instance: String,
    pub host: String,
    pub port: u16,
    pub props: Vec<Property>,
}

/// A property by value.
#[verifier::ext_equal]
pub struct PropertyRow {
    pub key: Seq<char>,
    pub value: Seq<char>,
}

/// A service record by value.
#[verifier::ext_equal]
pub struct ServiceRow {
    pub instance: Seq<char>,
    pub host: Seq<char>,
    pub port: u16,
    pub props: Seq<PropertyRow>,
}

impl View for Property {
    type V = PropertyRow;

    open spec fn view(&self) -> PropertyRow {
        PropertyRow { key: self.key@, value: self.value@ }
    }
}

impl View for ServiceRecord {
    type V = ServiceRow;

    open spec fn view(&self) -> ServiceRow {
        ServiceRow {
            instance: self.instance@,
            host: self.host@,
            port: self.port,
            props: self.props@.map_values(|p: Property| p@),
        }
    }
}

/// What the record says: the version, the fingerprint, the nickname, the work
/// group, empty if there is none, and what we can do.
pub open spec fn properties_of(
    fingerprint: Seq<char>,
    nickname: Seq<char>,
    group: Option<Seq<char>>,
) -> Seq<PropertyRow> {
    seq![
        PropertyRow { key: "v"@, value: "1"@ },
        PropertyRow { key: "fp"@, value: fingerprint },
        PropertyRow { key: "nick"@, value: nickname },
        PropertyRow {
            key: "group"@,
            value: match group {
                Some(g) => g,
                None => Seq::empty(),
            },
        },
        PropertyRow { key: "caps"@, value: "native"@ },
    ]
}

fn property(key: &str, value: &str) -> (r: Property)
    ensures
        r@ == (PropertyRow { key: key@, value: value@ }),
{
    Property { key: owned(key), value: owned(value) }
}

/// The record of a peer.
pub fn build_service_info(
    instance: &str,
    host: &str,
    fingerprint: &str,
    nickname: &str,
    group: Option<&String>,
    port: u16,
) -> (r: ServiceRecord)
    ensures
        r@ == (ServiceRow {
            instance: instance@,
            host: host@,
            port,
            props: properties_of(
                fingerprint@,
                nickname@,
                match group {
                    Some(g) => Some(g@),
                    None => None,
                },
            ),
        }),
{
    let mut props: Vec<Property> = Vec::new();
    props.push(property("v", "1"));
    props.push(property("fp", fingerprint));
    props.push(property("nick", nickname));
    match group {
        Some(g) => {
            props.push(property("group", g.as_str()));
        },
        None => {
            proof {
                reveal_strlit("");
                assert(""@ =~= Seq::<char>::empty());
            }
            props.push(property("group", ""));
        },
    }
    props.push(property("caps", "native"));
    let r = ServiceRecord { instance: owned(instance), host: owned(host), port, props };
    assert(r@.props =~= properties_of(
        fingerprint@,
        nickname@,
        match group {
            Some(g) => Some(g@),
            None => None,
        },
    ));
    r
}

impl ServiceRecord {
    /// The value under a key, the first if there are several.
    pub fn property(&self, key: &str) -> (r: Option<String>)
        ensures
            r is Some <==> exists|i: int|
                0 <= i < self@.props.len() && (#[trigger] self@.props[i]).key == key@,
            r matches Some(v) ==> exists|i: int|
                0 <= i < self@.props.len() && (#[trigger] self@.props[i]).key == key@
                    && self@.props[i].value == v@ && forall|j: int|
                    0 <= j < i ==> (#[trigger] self@.props[j]).key != key@,
    {
        let mut i: usize = 0;
        while i < self.props.len()
            invariant
                i <= self.props.len(),
                forall|j: int| 0 <= j < i ==> (#[trigger] self@.props[j]).key != key@,
            decreases self.props.len() - i,
        {
            assert(self@.props[i as int] == self.props@[i as int]@);
            if same_text(self.props[i].key.as_str(), key) {
                return Some(owned(self.props[i].value.as_str()));
            }
            i = i + 1;
        }
        None
    }
}

/// The name of a peer's record: the first sixteen bytes of its fingerprint,
/// where the fingerprint can be cut there.
pub open spec fn instance_of(fingerprint: Seq<char>) -> Option<Seq<char>> {
    let s = utf8::longest_prefix(fingerprint, 16);
    if utf8::byte_len(s) == 16 {
        Some(s)
    } else {
        None
    }
}

// ---------------------------------------------------------------------------
// Interfaces on which the record is not shown
// ---------------------------------------------------------------------------

/// The names of `a` that are not in `b`, in the order of `a`.
pub open spec fn names_without(a: Seq<Seq<char>>, b: Seq<Seq<char>>) -> Seq<Seq<char>> {
    a.filter(|name: Seq<char>| !b.contains(name))
}

/// Whether a list holds the same names as another, each once, in order.
pub open spec fn is_name_list(names: Seq<Seq<char>>, list: Seq<Seq<char>>) -> bool {
    &&& forall|i: int, j: int|
        0 <= i < j < list.len() ==> text::text_less(#[trigger] list[i], #[trigger] list[j])
    &&& forall|x: Seq<char>| #[trigger] list.contains(x) == names.contains(x)
}

fn list_without(a: &[String], b: &[String]) -> (r: Vec<String>)
    ensures
        text::texts(r@) == names_without(text::texts(a@), text::texts(b@)),
{
    let mut r: Vec<String> = Vec::new();
    let mut i: usize = 0;
    let ghost ta = text::texts(a@);
    let ghost tb = text::texts(b@);
    let ghost p = |name: Seq<char>| !tb.contains(name);
    proof {
        reveal(Seq::filter);
        assert(ta.take(0).filter(p) =~= Seq::<Seq<char>>::empty());
        assert(text::texts(r@) =~= ta.take(0).filter(p));
    }
    while i < a.len()
        invariant
            i <= a.len(),
            ta == text::texts(a@),
            tb == text::texts(b@),
            p == (|name: Seq<char>| !tb.contains(name)),
            text::texts(r@) == ta.take(i as int).filter(p),
        decreases a.len() - i,
    {
        proof {
            reveal(Seq::filter);
            assert(ta.take(i + 1).drop_last() =~= ta.take(i as int));
            assert(ta.take(i + 1).last() == a@[i as int]@);
        }
        let ghost before = r@;
        if !holds_name(b, a[i].as_str()) {
            r.push(owned(a[i].as_str()));
            assert(text::texts(r@) =~= text::texts(before).push(a@[i as int]@));
        }
        i = i + 1;
    }
    assert(ta.take(i as int) =~= ta);
    r
}

/// What is newly excluded, and what is no longer excluded.
pub fn exclusion_diff(prev: &[String], next: &[String]) -> (r: (Vec<String>, Vec<String>))
    ensures
        text::texts(r.0@) == names_without(text::texts(next@), text::texts(prev@)),
        text::texts(r.1@) == names_without(text::texts(prev@), text::texts(next@)),
{
    (list_without(next, prev), list_without(prev, next))
}

fn name_list(names: &[String]) -> (r: Vec<String>)
    ensures
        is_name_list(text::texts(names@), text::texts(r@)),
{
    let mut out: Vec<String> = Vec::new();
    let mut i: usize = 0;
    let ghost given = text::texts(names@);
    while i < names.len()
        invariant
            i <= names.len(),
            given == text::texts(names@),
            is_name_list(given.take(i as int), text::texts(out@)),
        decreases names.len() - i,
    {
        let name: &str = names[i].as_str();
        let ghost have = text::texts(out@);
        let mut at: usize = 0;
        while at < out.len() && less_text(out[at].as_str(), name)
            invariant
                at <= out.len(),
                have == text::texts(out@),
                forall|j: int| 0 <= j < at ==> text::text_less(#[trigger] have[j], name@),
            decreases out.len() - at,
        {
            assert(have[at as int] == out@[at as int]@);
            at = at + 1;
        }
        let present = at < out.len() && same_text(out[at].as_str(), name);
        proof {
            assert(given.take(i + 1) =~= given.take(i as int).push(name@));
            if at < out@.len() {
                assert(have[at as int] == out@[at as int]@);
            }
        }
        if present {
            proof {
                lemma_name_known(given.take(i as int), have, name@, at as int);
            }
        } else {
            out.insert(at, owned(name));
            proof {
                assert(text::texts(out@) =~= have.insert(at as int, name@));
                lemma_name_added(given.take(i as int), have, name@, at as int);
            }
        }
        i = i + 1;
    }
    assert(given.take(i as int) =~= given);
    out
}

proof fn lemma_name_known(names: Seq<Seq<char>>, list: Seq<Seq<char>>, name: Seq<char>, at: int)
    requires
        is_name_list(names, list),
        0 <= at < list.len(),
        list[at] == name,
    ensures
        is_name_list(names.push(name), list),
{
    assert(list.contains(name));
    assert forall|x: Seq<char>| #[trigger] list.contains(x) == names.push(name).contains(x) by {
        if names.contains(x) {
            let k = choose|k: int| 0 <= k < names.len() && names[k] == x;
            assert(names.push(name)[k] == x);
        }
        if names.push(name).contains(x) {
            let k = choose|k: int| 0 <= k < names.push(name).len() && names.push(name)[k] == x;
            if k < names.len() {
                assert(names[k] == x);
            }
        }
    }
}

proof fn lemma_name_added(names: Seq<Seq<char>>, list: Seq<Seq<char>>, name: Seq<char>, at: int)
    requires
        is_name_list(names, list),
        0 <= at <= list.len(),
        forall|j: int| 0 <= j < at ==> text::text_less(#[trigger] list[j], name),
        at < list.len() ==> !text::text_less(list[at], name) && list[at] != name,
    ensures
        is_name_list(names.push(name), list.insert(at, name)),
{
    let out = list.insert(at, name);
    let wide = names.push(name);
    assert forall|j: int| at <= j < list.len() implies text::text_less(
        name,
        #[trigger] list[j],
    ) by {
        text::lemma_text_less_total(list[at], name);
        if j > at {
            assert(text::text_less(list[at], list[j]));
            text::lemma_text_less_transitive(name, list[at], list[j]);
        }
    }
    assert forall|i: int, j: int| 0 <= i < j < out.len() implies text::text_less(
        #[trigger] out[i],
        #[trigger] out[j],
    ) by {
        if i < at && j < at {
            assert(text::text_less(list[i], list[j]));
        } else if i < at && j == at {
            assert(text::text_less(list[i], name));
        } else if i < at {
            assert(text::text_less(list[i], list[j - 1]));
        } else if i == at {
            assert(text::text_less(name, list[j - 1]));
        } else {
            assert(text::text_less(list[i - 1], list[j - 1]));
        }
    }
    assert forall|x: Seq<char>| #[trigger] out.contains(x) == wide.contains(x) by {
        assert(list.contains(x) == names.contains(x));
        if out.contains(x) {
            let k = choose|k: int| 0 <= k < out.len() && out[k] == x;
            if k < at {
                assert(list[k] == x);
                assert(list.contains(x));
            } else if k > at {
                assert(list[k - 1] == x);
                assert(list.contains(x));
            } else {
                assert(wide[names.len() as int] == x);
            }
            if names.contains(x) {
                let m = choose|m: int| 0 <= m < names.len() && names[m] == x;
                assert(wide[m] == x);
            }
        }
        if wide.contains(x) {
            let k = choose|k: int| 0 <= k < wide.len() && wide[k] == x;
            if k < names.len() {
                assert(names[k] == x);
                assert(names.contains(x));
                let m = choose|m: int| 0 <= m < list.len() && list[m] == x;
                if m < at {
                    assert(out[m] == x);
                } else {
                    assert(out[m + 1] == x);
                }
            } else {
                assert(out[at] == x);
            }
        }
    }
}

/// There is one list of the same names in order, whatever order they come in
/// and however often.
pub proof fn law_name_list_is_unique(names: Seq<Seq<char>>, a: Seq<Seq<char>>, b: Seq<Seq<char>>)
    requires
        is_name_list(names, a),
        is_name_list(names, b),
    ensures
        a == b,
    decreases a.len(),
{
    if a.len() == 0 {
        if b.len() > 0 {
            assert(b.contains(b[0]));
            assert(a.contains(b[0]));
        }
        assert(a =~= b);
    } else {
        let x = a.last();
        assert(a.contains(x));
        assert(b.contains(x));
        let k = choose|k: int| 0 <= k < b.len() && b[k] == x;
        let y = b.last();
        assert(b.contains(y));
        assert(a.contains(y));
        let m = choose|m: int| 0 <= m < a.len() && a[m] == y;
        if k < b.len() - 1 && m < a.len() - 1 {
            assert(text::text_less(b[k], b[b.len() - 1]));
            assert(text::text_less(a[m], a[a.len() - 1]));
            text::lemma_text_less_transitive(x, y, x);
            text::lemma_text_less_irreflexive(x);
        }
        if k < b.len() - 1 {
            assert(x == y);
            assert(text::text_less(b[k], b[b.len() - 1]));
            text::lemma_text_less_irreflexive(x);
        }
        assert(x == y);
        let a1 = a.drop_last();
        let b1 = b.drop_last();
        assert forall|z: Seq<char>| #[trigger] a1.contains(z) == b1.contains(z) by {
            lemma_front_contains(a, z);
            lemma_front_contains(b, z);
            assert(a.contains(z) == names.contains(z));
            assert(b.contains(z) == names.contains(z));
        }
        assert(is_name_list(b1, a1));
        assert(is_name_list(b1, b1));
        law_name_list_is_unique(b1, a1, b1);
        assert(a =~= a1.push(x));
        assert(b =~= b1.push(x));
    }
}

proof fn lemma_front_contains(a: Seq<Seq<char>>, z: Seq<char>)
    requires
        a.len() > 0,
        forall|i: int, j: int|
            0 <= i < j < a.len() ==> text::text_less(#[trigger] a[i], #[trigger] a[j]),
    ensures
        a.drop_last().contains(z) == (a.contains(z) && z != a.last()),
{
    let f = a.drop_last();
    if f.contains(z) {
        let k = choose|k: int| 0 <= k < f.len() && f[k] == z;
        assert(a[k] == z);
        assert(text::text_less(a[k], a[a.len() - 1]));
        text::lemma_text_less_irreflexive(z);
    }
    if a.contains(z) && z != a.last() {
        let k = choose|k: int| 0 <= k < a.len() && a[k] == z;
        assert(f[k] == z);
    }
}

/// The names of `a` that are not in `b` are none if all of them are.
proof fn lemma_nothing_without(a: Seq<Seq<char>>, b: Seq<Seq<char>>)
    requires
        forall|x: Seq<char>| a.contains(x) ==> b.contains(x),
    ensures
        names_without(a, b).len() == 0,
    decreases a.len(),
{
    reveal(Seq::filter);
    if a.len() > 0 {
        let t = a.drop_last();
        assert forall|x: Seq<char>| t.contains(x) implies b.contains(x) by {
            let k = choose|k: int| 0 <= k < t.len() && t[k] == x;
            assert(a[k] == x);
            assert(a.contains(x));
        }
        lemma_nothing_without(t, b);
        assert(a.contains(a.last()));
    }
}

/// Between lists of the same names there is no difference, so submitting the
/// same names again changes nothing.
pub proof fn law_same_names_no_difference(
    prev: Seq<Seq<char>>,
    next: Seq<Seq<char>>,
    names: Seq<Seq<char>>,
)
    requires
        is_name_list(names, prev),
        is_name_list(names, next),
    ensures
        names_without(next, prev).len() == 0,
        names_without(prev, next).len() == 0,
{
    assert forall|x: Seq<char>| next.contains(x) implies prev.contains(x) by {
        assert(next.contains(x) == names.contains(x));
        assert(prev.contains(x) == names.contains(x));
    }
    assert forall|x: Seq<char>| prev.contains(x) implies next.contains(x) by {
        assert(next.contains(x) == names.contains(x));
        assert(prev.contains(x) == names.contains(x));
    }
    lemma_nothing_without(next, prev);
    lemma_nothing_without(prev, next);
}

/// What to tell the daemon so that the record is not shown on some interfaces.
#[derive(Debug, Clone, PartialEq, Eq)]
pub struct DisablePlan {
    /// All names on which it is not shown then, each once, in order.
    pub desired: Vec<String>,
    /// Those that are new.
    pub disable: Vec<String>,
    /// Those on which it is shown again.
    pub enable: Vec<String>,
}

impl DisablePlan {
    /// Whether there is nothing to tell.
    pub fn is_empty(&self) -> (r: bool)
        ensures
            r == (self.disable@.len() == 0 && self.enable@.len() == 0),
    {
        self.disable.len() == 0 && self.enable.len() == 0
    }
}

/// What we show over multicast DNS.
#[derive(Debug)]
pub struct Discovery {
    fingerprint: String,
    nickname: String,
    group: Option<String>,
    port: u16,
    instance: String,
    host: String,
    applied_disabled: Vec<String>,
}

impl Discovery {
    /// The record that is shown.
    pub closed spec fn shown(&self) -> ServiceRow {
        ServiceRow {
            instance: self.instance@,
            host: self.host@,
            port: self.port,
            props: properties_of(
                self.fingerprint@,
                self.nickname@,
                text::opt_text(self.group),
            ),
        }
    }

    /// The own fingerprint.
    pub closed spec fn me(&self) -> Seq<char> {
        self.fingerprint@
    }

    /// The nickname that is shown.
    pub closed spec fn nick(&self) -> Seq<char> {
        self.nickname@
    }

    /// The work group that is shown.
    pub closed spec fn work_group(&self) -> Option<Seq<char>> {
        text::opt_text(self.group)
    }

    /// The names of interfaces on which it is not shown.
    pub closed spec fn hidden_on(&self) -> Seq<Seq<char>> {
        text::texts(self.applied_disabled@)
    }

    /// Starts to show ourselves. The record is named by the beginning of the
    /// fingerprint.
    pub fn start(
        fingerprint: &str,
        nickname: &str,
        group: Option<String>,
        port: u16,
    ) -> (r: Result<Self, ShortFingerprint>)
        ensures
            r is Ok <==> instance_of(fingerprint@) is Some,
            r matches Ok(d) ==> {
                &&& d.me() == fingerprint@
                &&& d.nick() == nickname@
                &&& d.work_group() == text::opt_text(group)
                &&& d.hidden_on().len() == 0
                &&& d.shown() == (ServiceRow {
                    instance: instance_of(fingerprint@)->0,
                    host: instance_of(fingerprint@)->0 + ".local."@,
                    port,
                    props: properties_of(fingerprint@, nickname@, text::opt_text(group)),
                })
            },
    {
        let instance = truncated(fingerprint, 16);
        if instance.as_str().as_bytes().len() != 16 {
            return Err(ShortFingerprint);
        }
        let mut host = owned(instance.as_str());
        host.append(".local.");
        let d = Discovery {
            fingerprint: owned(fingerprint),
            nickname: owned(nickname),
            group,
            port,
            instance,
            host,
            applied_disabled: Vec::new(),
        };
        Ok(d)
    }

    /// The record to show.
    pub fn record(&self) -> (r: ServiceRecord)
        ensures
            r@ == self.shown(),
    {
        let group: Option<&String> = match &self.group {
            Some(g) => Some(g),
            None => None,
        };
        build_service_info(
            self.instance.as_str(),
            self.host.as_str(),
            self.fingerprint.as_str(),
            self.nickname.as_str(),
            group,
            self.port,
        )
    }

    /// What to tell the daemon so that the record is not shown on these
    /// interfaces. Where there is nothing to tell, nothing is to be done;
    /// otherwise the record is also to be shown anew, so that it loses their
    /// addresses.
    pub fn plan_disabled(&self, desired: &[String]) -> (r: DisablePlan)
        ensures
            is_name_list(text::texts(desired@), text::texts(r.desired@)),
            text::texts(r.disable@) == names_without(text::texts(r.desired@), self.hidden_on()),
            text::texts(r.enable@) == names_without(self.hidden_on(), text::texts(r.desired@)),
    {
        let wanted = name_list(desired);
        let (disable, enable) = exclusion_diff(self.applied_disabled.as_slice(), wanted.as_slice());
        DisablePlan { desired: wanted, disable, enable }
    }

    /// Does as the plan says, with the record not shown on these interfaces any
    /// more; says whether anything has changed.
    pub fn set_disabled_interfaces(&mut self, desired: &[String]) -> (r: bool)
        ensures
            ({
                let next = text::texts(desired@);
                &&& r ==> is_name_list(next, final(self).hidden_on())
                &&& !r ==> final(self).hidden_on() == old(self).hidden_on()
                &&& forall|list: Seq<Seq<char>>| #[trigger]
                    is_name_list(next, list) ==> r == (names_without(
                        list,
                        old(self).hidden_on(),
                    ).len() > 0 || names_without(old(self).hidden_on(), list).len() > 0)
            }),
            final(self).shown() == old(self).shown(),
            final(self).me() == old(self).me(),
            final(self).nick() == old(self).nick(),
            final(self).work_group() == old(self).work_group(),
    {
        let plan = self.plan_disabled(desired);
        proof {
            let next = text::texts(desired@);
            assert forall|list: Seq<Seq<char>>| #[trigger] is_name_list(next, list) implies list
                == text::texts(plan.desired@) by {
                law_name_list_is_unique(next, list, text::texts(plan.desired@));
            }
            assert(text::texts(plan.disable@).len() == plan.disable@.len());
            assert(text::texts(plan.enable@).len() == plan.enable@.len());
        }
        if plan.is_empty() {
            return false;
        }
        self.applied_disabled = plan.desired;
        true
    }

    /// The names of interfaces on which it is not shown.
    pub fn applied_disabled(&self) -> (r: Vec<String>)
        ensures
            text::texts(r@) == self.hidden_on(),
    {
        copy_texts(&self.applied_disabled)
    }

    /// Changes the nickname.
    pub fn set_nickname(&mut self, nickname: &str)
        ensures
            final(self).shown() == (ServiceRow {
                props: properties_of(old(self).me(), nickname@, old(self).work_group()),
                ..old(self).shown()
            }),
            final(self).nick() == nickname@,
            final(self).me() == old(self).me(),
            final(self).work_group() == old(self).work_group(),
            final(self).hidden_on() == old(self).hidden_on(),
    {
        self.nickname = owned(nickname);
    }

    /// Changes the work group.
    pub fn set_group(&mut self, group: Option<String>)
        ensures
            final(self).shown() == (ServiceRow {
                props: properties_of(old(self).me(), old(self).nick(), text::opt_text(group)),
                ..old(self).shown()
            }),
            final(self).work_group() == text::opt_text(group),
            final(self).nick() == old(self).nick(),
            final(self).me() == old(self).me(),
            final(self).hidden_on() == old(self).hidden_on(),
    {
        self.group = group;
    }
}

// ---------------------------------------------------------------------------
// The records of others
// ---------------------------------------------------------------------------

/// What is read from a record.
#[derive(Debug, Clone, PartialEq)]
pub struct Resolved {
    pub fullname: String,
    pub fp: Option<String>,
    pub nick: Option<String>,
    pub group: Option<String>,
    pub addrs: Vec<IpAddr>,
    pub port: u16,
}

/// A record whose peer is known.
#[derive(Debug, Clone, PartialEq)]
pub struct KnownService {
    pub fullname: String,
    pub fp: String,
}

impl Keyed for KnownService {
    open spec fn key(self) -> Seq<char> {
        self.fullname@
    }

    fn has_key(&self, k: &str) -> (r: bool) {
        same_text(self.fullname.as_str(), k)
    }
}

/// The fingerprint in a record, empty if there is none.
pub open spec fn fp_in(r: Resolved) -> Seq<char> {
    match r.fp {
        Some(fp) => fp@,
        None => Seq::empty(),
    }
}

/// Whether a record is one of another peer.
pub open spec fn is_foreign(me: Seq<char>, fp: Seq<char>) -> bool {
    fp.len() > 0 && fp != me
}

/// What a record of another peer reports.
pub open spec fn sighting(r: Resolved) -> roster::EventRow {
    roster::EventRow::Seen {
        fingerprint: fp_in(r),
        nickname: match r.nick {
            Some(n) => n@,
            None => "?"@,
        },
        addrs: r.addrs@,
        port: r.port,
        protocol: Protocol::Native,
    }
}

/// The work group in a record; an empty one is none.
pub open spec fn group_in(r: Resolved) -> Option<Seq<char>> {
    match r.group {
        Some(g) => if g@.len() > 0 {
            Some(g@)
        } else {
            None
        },
        None => None,
    }
}

/// The peers by the names of their records, once a record has come.
pub open spec fn after_record(peers: Map<Seq<char>, Seq<char>>, me: Seq<char>, r: Resolved) -> Map<
    Seq<char>,
    Seq<char>,
> {
    if is_foreign(me, fp_in(r)) {
        peers.insert(r.fullname@, fp_in(r))
    } else {
        peers
    }
}

/// What is reported once a record is gone.
pub open spec fn loss_of(peers: Map<Seq<char>, Seq<char>>, fullname: Seq<char>) -> Option<
    roster::EventRow,
> {
    if peers.dom().contains(fullname) {
        Some(roster::EventRow::Lost { fingerprint: peers[fullname] })
    } else {
        None
    }
}

/// An event of discovery by value, if there is one.
pub open spec fn event_row(e: Option<DiscoveryEvent>) -> Option<roster::EventRow> {
    match e {
        Some(e) => Some(e@),
        None => None,
    }
}

/// The records that have been read.
#[derive(Debug)]
pub struct Browser {
    self_fp: String,
    known: Table<KnownService>,
}

impl Browser {
    /// The own fingerprint.
    pub closed spec fn me(&self) -> Seq<char> {
        self.self_fp@
    }

    /// The peers by the names of their records.
    pub closed spec fn peers(&self) -> Map<Seq<char>, Seq<char>> {
        self.known@.map_values(|k: KnownService| k.fp@)
    }

    /// No record has been read.
    pub fn new(self_fp: String) -> (r: Self)
        ensures
            r.me() == self_fp@,
            r.peers() == Map::<Seq<char>, Seq<char>>::empty(),
    {
        let r = Browser { self_fp, known: Table::new() };
        assert(r.peers() =~= Map::<Seq<char>, Seq<char>>::empty());
        r
    }

    /// Takes in a record; one without a fingerprint, and our own, are passed
    /// over. The work group comes beside the event.
    pub fn resolved(&mut self, record: Resolved) -> (r: Option<(DiscoveryEvent, Option<String>)>)
        ensures
            r is Some <==> is_foreign(old(self).me(), fp_in(record)),
            r matches Some((e, g)) ==> e@ == sighting(record) && text::opt_text(g) == group_in(
                record,
            ),
            final(self).me() == old(self).me(),
            final(self).peers() == after_record(old(self).peers(), old(self).me(), record),
    {
        let fp = match record.fp {
            Some(fp) => fp,
            None => {
                return None;
            },
        };
        if fp.as_str().is_empty() || same_text(fp.as_str(), self.self_fp.as_str()) {
            return None;
        }
        let ghost before = self.known@;
        let key = owned(record.fullname.as_str());
        let entry = KnownService { fullname: record.fullname, fp: owned(fp.as_str()) };
        self.known.insert(entry, key.as_str());
        assert(self.peers() =~= before.map_values(|k: KnownService| k.fp@).insert(key@, fp@));
        let nickname = match record.nick {
            Some(n) => n,
            None => owned("?"),
        };
        let group = match record.group {
            Some(g) => {
                if g.as_str().is_empty() {
                    None
                } else {
                    Some(g)
                }
            },
            None => None,
        };
        let event = DiscoveryEvent::Seen {
            fingerprint: fp,
            nickname,
            addrs: record.addrs,
            port: record.port,
            protocol: Protocol::Native,
        };
        Some((event, group))
    }

    /// Takes in that a record is gone: its peer is lost, if it was known.
    pub fn removed(&mut self, fullname: &str) -> (r: Option<DiscoveryEvent>)
        ensures
            event_row(r) == loss_of(old(self).peers(), fullname@),
            final(self).me() == old(self).me(),
            final(self).peers() == old(self).peers().remove(fullname@),
    {
        let ghost before = self.known@;
        let taken = self.known.remove(fullname);
        assert(self.peers() =~= before.map_values(|k: KnownService| k.fp@).remove(fullname@));
        match taken {
            Some(k) => Some(DiscoveryEvent::Lost { fingerprint: k.fp }),
            None => None,
        }
    }
}

/// What our record says is read back by others: our fingerprint, our nickname
/// and our work group, where an empty one counts as none.
pub proof fn law_record_is_read_back(
    fingerprint: Seq<char>,
    nickname: Seq<char>,
    group: Option<Seq<char>>,
    r: Resolved,
)
    requires
        r.fp is Some && r.fp->0@ == properties_of(fingerprint, nickname, group)[1].value,
        r.nick is Some && r.nick->0@ == properties_of(fingerprint, nickname, group)[2].value,
        r.group is Some && r.group->0@ == properties_of(fingerprint, nickname, group)[3].value,
    ensures
        fp_in(r) == fingerprint,
        sighting(r)->nickname == nickname,
        group_in(r) == (match group {
            Some(g) => if g.len() > 0 {
                Some(g)
            } else {
                None
            },
            None => None,
        }),
{
}

/// A record of another peer reports that peer, with the fingerprint, the nickname, the
/// addresses and the port of the record. Our own record, and one without a fingerprint,
/// report nobody and change nothing.
pub proof fn law_record_reports_its_peer(me: Seq<char>, r: Resolved, peers: Map<Seq<char>, Seq<char>>)
    ensures
        r.fp is None || r.fp->0@.len() == 0 || r.fp->0@ == me ==> !is_foreign(me, fp_in(r))
            && after_record(peers, me, r) == peers,
        r.fp is Some && r.fp->0@.len() > 0 && r.fp->0@ != me ==> {
            &&& is_foreign(me, fp_in(r))
            &&& sighting(r) matches roster::EventRow::Seen {
                fingerprint,
                nickname,
                addrs,
                port,
                protocol,
            } && fingerprint == r.fp->0@ && (r.nick matches Some(n) ==> nickname == n@) && addrs
                == r.addrs@ && port == r.port && protocol == Protocol::Native
        },
{
}

/// When a record goes, the peer that it had reported is lost, and no other; a record that
/// reported nobody loses nobody.
pub proof fn law_lost_record_loses_its_peer(
    me: Seq<char>,
    r: Resolved,
    peers: Map<Seq<char>, Seq<char>>,
    other: Seq<char>,
)
    requires
        other != r.fullname@,
    ensures
        is_foreign(me, fp_in(r)) ==> (loss_of(after_record(peers, me, r), r.fullname@) matches Some(
            roster::EventRow::Lost { fingerprint },
        ) && fingerprint == roster::subject(sighting(r))),
        !peers.dom().contains(r.fullname@) && !is_foreign(me, fp_in(r)) ==> loss_of(
            after_record(peers, me, r),
            r.fullname@,
        ) is None,
        loss_of(after_record(peers, me, r), other) == loss_of(peers, other),
        loss_of(peers.remove(r.fullname@), r.fullname@) is None,
{
}

/// Our record holds our fingerprint, our nickname and our work group each under a key of its
/// own, beside the version and the protocol that we speak.
pub proof fn law_record_says_who_we_are(
    fingerprint: Seq<char>,
    nickname: Seq<char>,
    group: Option<Seq<char>>,
    i: int,
)
    requires
        0 <= i < properties_of(fingerprint, nickname, group).len(),
    ensures
        ({
            let p = properties_of(fingerprint, nickname, group);
            &&& exists|k: int| 0 <= k < p.len() && (#[trigger] p[k]).key == "fp"@
            &&& exists|k: int| 0 <= k < p.len() && (#[trigger] p[k]).key == "nick"@
            &&& exists|k: int| 0 <= k < p.len() && (#[trigger] p[k]).key == "group"@
            &&& exists|k: int|
                0 <= k < p.len() && (#[trigger] p[k]).key == "v"@ && p[k].value == "1"@
            &&& exists|k: int|
                0 <= k < p.len() && (#[trigger] p[k]).key == "caps"@ && p[k].value == "native"@
            &&& p[i].key == "fp"@ ==> p[i].value == fingerprint
            &&& p[i].key == "nick"@ ==> p[i].value == nickname
            &&& p[i].key == "group"@ ==> (group matches Some(g) ==> p[i].value == g) && (group
                is None ==> p[i].value.len() == 0)
        }),
{
    reveal_strlit("v");
    reveal_strlit("fp");
    reveal_strlit("nick");
    reveal_strlit("group");
    reveal_strlit("caps");
    assert("v"@.len() == 1 && "fp"@.len() == 2 && "group"@.len() == 5);
    assert("nick"@.len() == 4 && "nick"@[0] == 'n');
    assert("caps"@.len() == 4 && "caps"@[0] == 'c');
    let p = properties_of(fingerprint, nickname, group);
    assert(p[0].key == "v"@ && p[4].key == "caps"@);
    assert(p[1].key == "fp"@ && p[2].key == "nick"@ && p[3].key == "group"@);
}

/// What is in one list of names and not in another, is exactly what the difference holds.
pub proof fn law_difference_of_names(a: Seq<Seq<char>>, b: Seq<Seq<char>>, x: Seq<char>)
    ensures
        names_without(a, b).contains(x) <==> a.contains(x) && !b.contains(x),
{
    crate::seqs::lemma_filter_contains(a, |name: Seq<char>| !b.contains(name), x);
}

/// The name of a record is the beginning of the fingerprint, sixteen bytes of it; a
/// fingerprint that is too short, or that cannot be cut there, has none.
pub proof fn law_record_is_named_by_the_fingerprint(fingerprint: Seq<char>)
    ensures
        instance_of(fingerprint) matches Some(s) ==> s.len() <= fingerprint.len() && s
            == fingerprint.take(s.len() as int) && utf8::byte_len(s) == 16,
        utf8::byte_len(fingerprint) < 16 ==> instance_of(fingerprint) is None,
{
    utf8::law_longest_prefix(fingerprint, 16);
}

} // verus!
