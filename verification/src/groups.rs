//! Group chats: who is a member, merged by version.
//!
//! Only the creator of a group changes its members, and counts its version up
//! with every change. Whoever receives the members keeps the higher version.

use crate::json;
use crate::json::{read_pairs, write_pairs};
use crate::order;
use crate::order::{sort_ranked, Ranked};
use crate::table;
use crate::table::{Keyed, Table};
use crate::text;
use crate::text::{less_text, owned, same_text};
use vstd::prelude::*;

verus! {

/// A member of a group.
#[derive(Debug, Clone, PartialEq, Eq)]
pub struct GroupMember {
    pub fp: String,
    pub nick: String,
}

/// A group.
#[derive(Debug, Clone, PartialEq, Eq)]
pub struct Group {
    pub group_id: String,
    pub name: String,
    pub creator_fp: String,
    pub version: u64,
    pub members: Vec<GroupMember>,
}

/// What came of received members.
#[derive(Debug, Clone, Copy, PartialEq, Eq, Structural)]
pub enum InfoOutcome {
    /// A new group, of which we are a member.
    Joined,
    /// A known group, in a higher version.
    Updated,
    /// A higher version in which we are no longer a member.
    Removed,
    /// No higher version than ours, or a new group without us.
    Ignored,
}

// ---------------------------------------------------------------------------
// Model
// ---------------------------------------------------------------------------

/// A member by the values that it holds.
#[verifier::ext_equal]
pub struct MemberRow {
    pub fp: Seq<char>,
    pub nick: Seq<char>,
}

/// A group by the values that it holds.
#[verifier::ext_equal]
pub struct GroupRow {
    pub group_id: Seq<char>,
    pub name: Seq<char>,
    pub creator_fp: Seq<char>,
    pub version: u64,
    pub members: Seq<MemberRow>,
}

impl View for GroupMember {
    type V = MemberRow;

    open spec fn view(&self) -> MemberRow {
        MemberRow { fp: self.fp@, nick: self.nick@ }
    }
}

/// The members by their values.
pub open spec fn member_rows(v: Seq<GroupMember>) -> Seq<MemberRow> {
    v.map_values(|m: GroupMember| m@)
}

impl View for Group {
    type V = GroupRow;

    open spec fn view(&self) -> GroupRow {
        GroupRow {
            group_id: self.group_id@,
            name: self.name@,
            creator_fp: self.creator_fp@,
            version: self.version,
            members: member_rows(self.members@),
        }
    }
}

impl GroupRow {
    /// Whether the peer is a member.
    pub open spec fn has(self, fp: Seq<char>) -> bool {
        exists|i: int| 0 <= i < self.members.len() && (#[trigger] self.members[i]).fp == fp
    }
}

/// The groups after the given ones have been put in, one after the other.
pub open spec fn collected(given: Seq<GroupRow>) -> Map<Seq<char>, GroupRow>
    decreases given.len(),
{
    if given.len() == 0 {
        Map::empty()
    } else {
        collected(given.drop_last()).insert(given.last().group_id, given.last())
    }
}

/// What comes of received members.
pub open spec fn outcome_of(
    known: Map<Seq<char>, GroupRow>,
    incoming: GroupRow,
    me: Seq<char>,
) -> InfoOutcome {
    if known.dom().contains(incoming.group_id) {
        if incoming.version <= known[incoming.group_id].version {
            InfoOutcome::Ignored
        } else if incoming.has(me) {
            InfoOutcome::Updated
        } else {
            InfoOutcome::Removed
        }
    } else if incoming.has(me) {
        InfoOutcome::Joined
    } else {
        InfoOutcome::Ignored
    }
}

/// The groups after members have been received.
pub open spec fn after_info(
    known: Map<Seq<char>, GroupRow>,
    incoming: GroupRow,
    me: Seq<char>,
) -> Map<Seq<char>, GroupRow> {
    match outcome_of(known, incoming, me) {
        InfoOutcome::Joined | InfoOutcome::Updated => known.insert(incoming.group_id, incoming),
        InfoOutcome::Removed => known.remove(incoming.group_id),
        InfoOutcome::Ignored => known,
    }
}

/// Groups are listed by name, then by id.
pub open spec fn group_before(a: GroupRow, b: GroupRow) -> bool {
    text::text_less(a.name, b.name) || (a.name == b.name && text::text_less(a.group_id, b.group_id))
}

/// Whether the list holds exactly the groups, in order.
pub open spec fn is_group_listing(known: Map<Seq<char>, GroupRow>, list: Seq<GroupRow>) -> bool {
    &&& forall|i: int, j: int|
        0 <= i < j < list.len() ==> group_before(#[trigger] list[i], #[trigger] list[j])
    &&& forall|i: int|
        0 <= i < list.len() ==> known.dom().contains((#[trigger] list[i]).group_id)
            && known[list[i].group_id] == list[i]
    &&& forall|id: Seq<char>| #[trigger]
        known.dom().contains(id) ==> exists|i: int|
            0 <= i < list.len() && (#[trigger] list[i]).group_id == id
}

/// The groups by their values.
pub open spec fn group_rows(v: Seq<Group>) -> Seq<GroupRow> {
    v.map_values(|g: Group| g@)
}

/// The fingerprints of the members other than ourselves, in order.
pub open spec fn others(members: Seq<MemberRow>, me: Seq<char>) -> Seq<Seq<char>>
    decreases members.len(),
{
    if members.len() == 0 {
        Seq::empty()
    } else {
        let before = others(members.drop_last(), me);
        if members.last().fp == me {
            before
        } else {
            before.push(members.last().fp)
        }
    }
}

impl Keyed for Group {
    open spec fn key(self) -> Seq<char> {
        self.group_id@
    }

    fn has_key(&self, k: &str) -> (r: bool) {
        same_text(&self.group_id, k)
    }
}

impl Ranked for Group {
    open spec fn before(self, other: Self) -> bool {
        group_before(self@, other@)
    }

    fn comes_before(&self, other: &Self) -> (r: bool) {
        less_text(&self.name, &other.name) || (same_text(&self.name, &other.name) && less_text(
            &self.group_id,
            &other.group_id,
        ))
    }
}

proof fn lemma_group_order()
    ensures
        order::is_weak_order(order::by_rank::<Group>()),
        forall|a: Group, b: Group|
            a@.group_id != b@.group_id ==> #[trigger] a.before(b) || b.before(a),
{
    let less = order::by_rank::<Group>();
    assert forall|a: Group, b: Group| #[trigger] less(a, b) implies !less(b, a) by {
        text::lemma_text_order(a@.name, b@.name, b@.name);
        text::lemma_text_order(a@.group_id, b@.group_id, b@.group_id);
    }
    assert forall|a: Group, b: Group, c: Group|
        !(#[trigger] less(b, a)) && !(#[trigger] less(c, b)) implies !less(c, a) by {
        text::lemma_text_order(a@.name, b@.name, c@.name);
        text::lemma_text_order(a@.group_id, b@.group_id, c@.group_id);
    }
    assert forall|a: Group, b: Group| a@.group_id != b@.group_id implies #[trigger] a.before(b)
        || b.before(a) by {
        text::lemma_text_order(a@.name, b@.name, b@.name);
        text::lemma_text_order(a@.group_id, b@.group_id, b@.group_id);
    }
}

// ---------------------------------------------------------------------------
// Groups
// ---------------------------------------------------------------------------

impl Group {
    /// Whether the peer is a member.
    pub fn has_member(&self, fp: &str) -> (r: bool)
        ensures
            r == self@.has(fp@),
    {
        let mut i: usize = 0;
        while i < self.members.len()
            invariant
                i <= self.members.len(),
                forall|j: int| 0 <= j < i ==> (#[trigger] self.members@[j]).fp@ != fp@,
            decreases self.members.len() - i,
        {
            if same_text(&self.members[i].fp, fp) {
                assert(self@.members[i as int].fp == fp@);
                return true;
            }
            i = i + 1;
        }
        proof {
            assert forall|j: int| 0 <= j < self@.members.len() implies (
            #[trigger] self@.members[j]).fp != fp@ by {
                assert(self@.members[j] == self.members@[j]@);
            }
        }
        false
    }

    /// A copy of the group.
    pub fn copied(&self) -> (r: Self)
        ensures
            r@ == self@,
    {
        let mut members: Vec<GroupMember> = Vec::new();
        let mut i: usize = 0;
        while i < self.members.len()
            invariant
                i <= self.members.len(),
                members.len() == i,
                forall|j: int| 0 <= j < i ==> (#[trigger] members@[j])@ == self.members@[j]@,
            decreases self.members.len() - i,
        {
            let m: &GroupMember = &self.members[i];
            members.push(GroupMember { fp: m.fp.clone(), nick: m.nick.clone() });
            i = i + 1;
        }
        assert(member_rows(members@) =~= member_rows(self.members@));
        Group {
            group_id: self.group_id.clone(),
            name: self.name.clone(),
            creator_fp: self.creator_fp.clone(),
            version: self.version,
            members,
        }
    }
}

/// The groups that this program is a member of.
#[derive(Debug)]
pub struct GroupsState {
    groups: Table<Group>,
}

impl GroupsState {
    /// The groups by id.
    pub closed spec fn groups(&self) -> Map<Seq<char>, GroupRow> {
        self.groups@.map_values(|g: Group| g@)
    }

    /// A group stands under its own id.
    pub open spec fn well_formed(&self) -> bool {
        forall|id: Seq<char>| #[trigger]
            self.groups().dom().contains(id) ==> self.groups()[id].group_id == id
    }

    /// The given groups; of several with one id the last counts.
    pub fn new(initial: Vec<Group>) -> (r: Self)
        ensures
            r.well_formed(),
            r.groups() == collected(group_rows(initial@)),
    {
        let mut r: GroupsState = GroupsState { groups: Table::new() };
        let ghost given = group_rows(initial@);
        let mut i: usize = 0;
        proof {
            assert(given.take(0) =~= Seq::<GroupRow>::empty());
            assert(r.groups() =~= Map::<Seq<char>, GroupRow>::empty());
        }
        while i < initial.len()
            invariant
                i <= initial.len(),
                given == group_rows(initial@),
                r.well_formed(),
                r.groups() == collected(given.take(i as int)),
            decreases initial.len() - i,
        {
            proof {
                assert(given.take(i + 1).drop_last() =~= given.take(i as int));
                assert(given.take(i + 1).last() == initial@[i as int]@);
            }
            r.upsert_local(initial[i].copied());
            i = i + 1;
        }
        proof {
            assert(given.take(i as int) =~= given);
        }
        r
    }

    /// The group with this id.
    pub fn get(&self, group_id: &str) -> (r: Option<&Group>)
        ensures
            match r {
                Some(g) => self.groups().dom().contains(group_id@) && g@ == self.groups()[group_id@],
                None => !self.groups().dom().contains(group_id@),
            },
    {
        self.groups.get(group_id)
    }

    /// The groups by name, then by id.
    pub fn list(&self) -> (r: Vec<Group>)
        requires
            self.well_formed(),
        ensures
            is_group_listing(self.groups(), group_rows(r@)),
    {
        let rows: &Vec<Group> = self.groups.rows();
        let mut v: Vec<Group> = Vec::new();
        let mut i: usize = 0;
        while i < rows.len()
            invariant
                i <= rows.len(),
                v.len() == i,
                forall|j: int| 0 <= j < i ==> (#[trigger] v@[j])@ == rows@[j]@,
            decreases rows.len() - i,
        {
            v.push(rows[i].copied());
            i = i + 1;
        }
        let ghost copied = v@;
        let r: Vec<Group> = sort_ranked(v);
        proof {
            let less = order::by_rank::<Group>();
            lemma_group_order();
            assert(table::keys_differ(copied)) by {
                assert forall|a: int, b: int| 0 <= a < b < copied.len() implies (
                #[trigger] copied[a]).key() != (#[trigger] copied[b]).key() by {
                    assert(copied[a]@ == rows@[a]@);
                    assert(copied[b]@ == rows@[b]@);
                    assert(rows@[a].key() != rows@[b].key());
                }
            }
            table::lemma_sorted_rows(copied, less);
            table::lemma_map_of(copied);
            table::lemma_map_of(rows@);
            table::lemma_map_of(r@);
            let list = group_rows(r@);
            let known = self.groups();
            assert forall|i: int, j: int| 0 <= i < j < list.len() implies group_before(
                #[trigger] list[i],
                #[trigger] list[j],
            ) by {
                assert(!less(r@[j], r@[i]));
                assert(r@[i].key() != r@[j].key());
                assert(r@[i].before(r@[j]) || r@[j].before(r@[i]));
            }
            assert forall|i: int| 0 <= i < list.len() implies known.dom().contains(
                (#[trigger] list[i]).group_id,
            ) && known[list[i].group_id] == list[i] by {
                let k = r@[i].key();
                assert(table::map_of(r@).dom().contains(k));
                assert(table::map_of(r@)[k] == r@[i]);
                assert(table::map_of(copied).dom().contains(k));
                let a = choose|a: int| 0 <= a < copied.len() && (#[trigger] copied[a]).key() == k;
                assert(copied[a]@ == rows@[a]@);
                assert(rows@[a].key() == k);
                assert(table::map_of(rows@)[k] == rows@[a]);
            }
            assert forall|id: Seq<char>| #[trigger] known.dom().contains(id) implies exists|i: int|
                0 <= i < list.len() && (#[trigger] list[i]).group_id == id by {
                assert(table::map_of(rows@).dom().contains(id));
                let a = choose|a: int| 0 <= a < rows@.len() && (#[trigger] rows@[a]).key() == id;
                assert(copied[a]@ == rows@[a]@);
                assert(copied[a].key() == id);
                assert(table::map_of(copied).dom().contains(id));
                assert(table::map_of(r@).dom().contains(id));
                let b = choose|b: int| 0 <= b < r@.len() && (#[trigger] r@[b]).key() == id;
                assert(list[b].group_id == id);
            }
        }
        r
    }

    /// Puts a group in as it is, whatever the version.
    pub fn upsert_local(&mut self, g: Group)
        ensures
            final(self).groups() == old(self).groups().insert(g@.group_id, g@),
            old(self).well_formed() ==> final(self).well_formed(),
    {
        let k: String = g.group_id.clone();
        let ghost before = self.groups@;
        self.groups.insert(g, &k);
        assert(self.groups() =~= before.map_values(|g: Group| g@).insert(g@.group_id, g@));
        assert forall|id: Seq<char>|
            old(self).well_formed() && #[trigger] self.groups().dom().contains(
                id,
            ) implies self.groups()[id].group_id == id by {
            if id != g@.group_id {
                assert(old(self).groups().dom().contains(id));
            }
        }
    }

    /// Takes a group out.
    pub fn remove(&mut self, group_id: &str) -> (r: Option<Group>)
        ensures
            final(self).groups() == old(self).groups().remove(group_id@),
            old(self).well_formed() ==> final(self).well_formed(),
            match r {
                Some(g) => old(self).groups().dom().contains(group_id@) && g@ == old(
                    self,
                ).groups()[group_id@],
                None => !old(self).groups().dom().contains(group_id@),
            },
    {
        let ghost before = self.groups@;
        let r: Option<Group> = self.groups.remove(group_id);
        assert(self.groups() =~= before.map_values(|g: Group| g@).remove(group_id@));
        r
    }

    /// Takes in members received from a peer.
    pub fn apply_info(&mut self, incoming: Group, self_fp: &str) -> (r: InfoOutcome)
        ensures
            r == outcome_of(old(self).groups(), incoming@, self_fp@),
            final(self).groups() == after_info(old(self).groups(), incoming@, self_fp@),
            old(self).well_formed() ==> final(self).well_formed(),
    {
        let known: Option<u64> = match self.get(&incoming.group_id) {
            Some(g) => Some(g.version),
            None => None,
        };
        match known {
            None => {
                if incoming.has_member(self_fp) {
                    self.upsert_local(incoming);
                    InfoOutcome::Joined
                } else {
                    InfoOutcome::Ignored
                }
            },
            Some(version) => {
                if incoming.version <= version {
                    return InfoOutcome::Ignored;
                }
                if incoming.has_member(self_fp) {
                    self.upsert_local(incoming);
                    InfoOutcome::Updated
                } else {
                    let _ = self.remove(&incoming.group_id);
                    InfoOutcome::Removed
                }
            },
        }
    }
}

impl Default for GroupsState {
    fn default() -> (r: Self)
        ensures
            r.well_formed(),
            r.groups() == Map::<Seq<char>, GroupRow>::empty(),
    {
        let none: Vec<Group> = Vec::new();
        proof {
            assert(group_rows(none@) =~= Seq::<GroupRow>::empty());
        }
        GroupsState::new(none)
    }
}

/// Whom a group message goes to: the members other than ourselves.
pub fn fan_out_targets(group: &Group, self_fp: &str) -> (r: Vec<String>)
    ensures
        text::texts(r@) == others(group@.members, self_fp@),
{
    let mut r: Vec<String> = Vec::new();
    let mut i: usize = 0;
    let ghost all = group@.members;
    proof {
        assert(all.take(0) =~= Seq::<MemberRow>::empty());
        assert(text::texts(r@) =~= Seq::<Seq<char>>::empty());
    }
    while i < group.members.len()
        invariant
            i <= group.members.len(),
            all == group@.members,
            text::texts(r@) == others(all.take(i as int), self_fp@),
        decreases group.members.len() - i,
    {
        let ghost before = r@;
        proof {
            assert(all.take(i + 1).drop_last() =~= all.take(i as int));
            assert(all.take(i + 1).last() == group.members@[i as int]@);
        }
        if !same_text(&group.members[i].fp, self_fp) {
            r.push(group.members[i].fp.clone());
            assert(text::texts(r@) =~= text::texts(before).push(group.members@[i as int].fp@));
        }
        i = i + 1;
    }
    proof {
        assert(all.take(i as int) =~= all);
    }
    r
}

// ---------------------------------------------------------------------------
// Laws
// ---------------------------------------------------------------------------

/// The version of a known group never goes down by what is received, and a
/// group that stays keeps its id; other groups are not touched.
pub proof fn law_version_never_regresses(
    known: Map<Seq<char>, GroupRow>,
    incoming: GroupRow,
    me: Seq<char>,
    id: Seq<char>,
)
    ensures
        known.dom().contains(id) && after_info(known, incoming, me).dom().contains(id)
            ==> after_info(known, incoming, me)[id].version >= known[id].version,
        id != incoming.group_id ==> known.dom().contains(id) == after_info(
            known,
            incoming,
            me,
        ).dom().contains(id) && (known.dom().contains(id) ==> after_info(known, incoming, me)[id]
            == known[id]),
{
}

/// Receiving the same members again is ignored, unless they do not name us and
/// the group is unknown, where both times are ignored.
pub proof fn law_info_twice_is_ignored(
    known: Map<Seq<char>, GroupRow>,
    incoming: GroupRow,
    me: Seq<char>,
)
    ensures
        outcome_of(after_info(known, incoming, me), incoming, me) == InfoOutcome::Ignored,
        after_info(after_info(known, incoming, me), incoming, me) == after_info(
            known,
            incoming,
            me,
        ),
{
}

/// Two versions of a group's members that both name us, taken in either order,
/// lead to the same groups.
pub proof fn law_order_of_versions_does_not_matter(
    known: Map<Seq<char>, GroupRow>,
    a: GroupRow,
    b: GroupRow,
    me: Seq<char>,
)
    requires
        a.group_id == b.group_id,
        a.version != b.version,
        a.has(me),
        b.has(me),
    ensures
        after_info(after_info(known, a, me), b, me) == after_info(
            after_info(known, b, me),
            a,
            me,
        ),
{
    let ab = after_info(after_info(known, a, me), b, me);
    let ba = after_info(after_info(known, b, me), a, me);
    assert(ab =~= ba);
}

/// Members of a higher version than the known one take its place as they are, if they
/// name us: the name, the creator, the version and the members. If they do not name
/// us, the group is gone. Members of an unknown group make us join it exactly if they
/// name us. Anything else is ignored and changes nothing.
pub proof fn law_newer_members_are_taken_over(
    known: Map<Seq<char>, GroupRow>,
    incoming: GroupRow,
    me: Seq<char>,
    k: int,
)
    requires
        !known.dom().contains(incoming.group_id) || incoming.version
            > known[incoming.group_id].version,
    ensures
        0 <= k < incoming.members.len() && incoming.members[k].fp == me ==> {
            let after = after_info(known, incoming, me);
            let outcome = outcome_of(known, incoming, me);
            &&& after.dom().contains(incoming.group_id)
            &&& after[incoming.group_id].name == incoming.name
            &&& after[incoming.group_id].creator_fp == incoming.creator_fp
            &&& after[incoming.group_id].version == incoming.version
            &&& after[incoming.group_id].members == incoming.members
            &&& after[incoming.group_id].group_id == incoming.group_id
            &&& known.dom().contains(incoming.group_id) ==> outcome is Updated
            &&& !known.dom().contains(incoming.group_id) ==> outcome is Joined
        },
        (forall|i: int| 0 <= i < incoming.members.len() ==> (#[trigger] incoming.members[i]).fp
            != me) ==> {
            &&& !after_info(known, incoming, me).dom().contains(incoming.group_id)
            &&& known.dom().contains(incoming.group_id) ==> outcome_of(known, incoming, me)
                is Removed
            &&& !known.dom().contains(incoming.group_id) ==> outcome_of(known, incoming, me)
                is Ignored
        },
{
}

/// Members of a version that is not higher than the known one are ignored, whoever they
/// name, and what is ignored changes nothing.
pub proof fn law_old_members_are_ignored(
    known: Map<Seq<char>, GroupRow>,
    incoming: GroupRow,
    me: Seq<char>,
)
    ensures
        known.dom().contains(incoming.group_id) && incoming.version
            <= known[incoming.group_id].version ==> outcome_of(known, incoming, me) is Ignored,
        outcome_of(known, incoming, me) is Ignored ==> after_info(known, incoming, me) == known,
{
}

/// Tells the members other than one.
pub open spec fn member_other_than(me: Seq<char>) -> spec_fn(MemberRow) -> bool {
    |m: MemberRow| m.fp != me
}

/// Reads the fingerprint of a member.
pub open spec fn fingerprint_of_member() -> spec_fn(MemberRow) -> Seq<char> {
    |m: MemberRow| m.fp
}

/// A message goes to the members other than ourselves and to nobody else: one copy for
/// each of them, in their order.
pub proof fn law_fan_out_follows_the_members(members: Seq<MemberRow>, me: Seq<char>)
    ensures
        others(members, me) == members.filter(member_other_than(me)).map_values(
            fingerprint_of_member(),
        ),
    decreases members.len(),
{
    reveal(Seq::filter);
    let p = member_other_than(me);
    let f = fingerprint_of_member();
    if members.len() > 0 {
        let t = members.drop_last();
        law_fan_out_follows_the_members(t, me);
        if members.last().fp != me {
            assert(members.filter(p) =~= t.filter(p).push(members.last()));
            assert(members.filter(p).map_values(f) =~= t.filter(p).map_values(f).push(
                members.last().fp,
            ));
        }
    } else {
        assert(members.filter(p) =~= Seq::<MemberRow>::empty());
        assert(members.filter(p).map_values(f) =~= others(members, me));
    }
}

/// Of the groups that were kept, the last one under an id is the one that is known, with
/// all that was kept of it; no other is.
pub proof fn law_kept_groups_are_known(given: Seq<GroupRow>, i: int, id: Seq<char>)
    ensures
        0 <= i < given.len() && (forall|k: int|
            i < k < given.len() ==> (#[trigger] given[k]).group_id != given[i].group_id)
            ==> collected(given).dom().contains(given[i].group_id) && collected(
            given,
        )[given[i].group_id] == given[i],
        collected(given).dom().contains(id) ==> exists|k: int|
            0 <= k < given.len() && (#[trigger] given[k]).group_id == id,
    decreases given.len(),
{
    if given.len() > 0 {
        let t = given.drop_last();
        law_kept_groups_are_known(t, i, id);
        if collected(t).dom().contains(id) {
            let k = choose|k: int| 0 <= k < t.len() && (#[trigger] t[k]).group_id == id;
            assert(given[k] == t[k]);
        }
        assert(given[given.len() - 1] == given.last());
        if 0 <= i < t.len() {
            assert(t[i] == given[i]);
            assert(forall|k: int| 0 <= k < t.len() ==> #[trigger] t[k] == given[k]);
        }
    }
}

/// A message is never sent to ourselves, and to every other member.
pub proof fn law_fan_out(members: Seq<MemberRow>, me: Seq<char>)
    ensures
        !others(members, me).contains(me),
        forall|i: int|
            0 <= i < members.len() && (#[trigger] members[i]).fp != me ==> others(
                members,
                me,
            ).contains(members[i].fp),
    decreases members.len(),
{
    if members.len() > 0 {
        let t = members.drop_last();
        law_fan_out(t, me);
        let a = others(t, me);
        let b = others(members, me);
        assert forall|i: int| 0 <= i < members.len() && (#[trigger] members[i]).fp
            != me implies b.contains(members[i].fp) by {
            if i < t.len() {
                assert(t[i] == members[i]);
                let j = choose|j: int| 0 <= j < a.len() && a[j] == members[i].fp;
                assert(b[j] == members[i].fp);
            } else {
                assert(b[b.len() - 1] == members[i].fp);
            }
        }
        if b.contains(me) {
            let j = choose|j: int| 0 <= j < b.len() && b[j] == me;
            if j < a.len() {
                assert(a[j] == me);
            }
        }
    }
}

// ---------------------------------------------------------------------------
// Members as they are kept
// ---------------------------------------------------------------------------

/// Members as pairs of fingerprint and nickname.
pub open spec fn member_pairs(v: Seq<MemberRow>) -> Seq<(Seq<char>, Seq<char>)> {
    v.map_values(|m: MemberRow| (m.fp, m.nick))
}

/// The members of pairs of fingerprint and nickname.
pub open spec fn members_of_pairs(v: Seq<(Seq<char>, Seq<char>)>) -> Seq<MemberRow> {
    v.map_values(|p: (Seq<char>, Seq<char>)| MemberRow { fp: p.0, nick: p.1 })
}

/// Members in JSON, as they are kept: a list of pairs of fingerprint and
/// nickname.
pub fn members_json(members: &Vec<GroupMember>) -> (r: String)
    ensures
        r@ == json::pairs_text(member_pairs(member_rows(members@))),
{
    let mut pairs: Vec<(String, String)> = Vec::new();
    let mut i: usize = 0;
    while i < members.len()
        invariant
            i <= members.len(),
            pairs@.len() == i,
            forall|k: int|
                0 <= k < i ==> (#[trigger] pairs@[k]).0@ == members@[k].fp@ && pairs@[k].1@
                    == members@[k].nick@,
        decreases members.len() - i,
    {
        pairs.push((owned(members[i].fp.as_str()), owned(members[i].nick.as_str())));
        i = i + 1;
    }
    assert(json::pair_rows(pairs@) =~= member_pairs(member_rows(members@)));
    write_pairs(&pairs)
}

/// The members that are kept; none if they cannot be read.
pub open spec fn kept_members(s: Seq<char>) -> Seq<MemberRow> {
    match json::json_pairs(s) {
        Some(v) => members_of_pairs(v),
        None => Seq::empty(),
    }
}

/// The members that were read as pairs; none if they could not be read.
pub fn members_from(pairs: Option<Vec<(String, String)>>) -> (r: Vec<GroupMember>)
    ensures
        member_rows(r@) == match json::read_rows(pairs) {
            Some(v) => members_of_pairs(v),
            None => Seq::empty(),
        },
{
    let mut out: Vec<GroupMember> = Vec::new();
    match pairs {
        None => {
            assert(member_rows(out@) =~= Seq::<MemberRow>::empty());
        },
        Some(v) => {
            let mut i: usize = 0;
            while i < v.len()
                invariant
                    i <= v.len(),
                    out@.len() == i,
                    forall|k: int|
                        0 <= k < i ==> (#[trigger] out@[k]).fp@ == v@[k].0@ && out@[k].nick@
                            == v@[k].1@,
                decreases v.len() - i,
            {
                out.push(
                    GroupMember { fp: owned(v[i].0.as_str()), nick: owned(v[i].1.as_str()) },
                );
                i = i + 1;
            }
            assert(member_rows(out@) =~= members_of_pairs(json::pair_rows(v@)));
        },
    }
    out
}

/// The members that are kept in JSON. Members that were written are read back.
pub fn members_of_json(s: &str) -> (r: Vec<GroupMember>)
    ensures
        member_rows(r@) == kept_members(s@),
        forall|m: Seq<MemberRow>| #[trigger]
            json::pairs_text(member_pairs(m)) == s@ ==> member_rows(r@) == m,
{
    let pairs = read_pairs(s);
    proof {
        assert forall|m: Seq<MemberRow>| #[trigger]
            json::pairs_text(member_pairs(m)) == s@ implies kept_members(s@) == m by {
            assert(members_of_pairs(member_pairs(m)) =~= m);
        }
    }
    members_from(pairs)
}

/// Groups are listed by name: no group stands behind one whose name comes later.
pub proof fn law_groups_are_listed_by_name(
    known: Map<Seq<char>, GroupRow>,
    list: Seq<GroupRow>,
    i: int,
    j: int,
)
    requires
        is_group_listing(known, list),
        0 <= i < j < list.len(),
    ensures
        !text::text_less(list[j].name, list[i].name),
        list[i].name == list[j].name ==> text::text_less(list[i].group_id, list[j].group_id),
{
    assert(group_before(list[i], list[j]));
    text::lemma_text_order(list[i].name, list[j].name, list[j].name);
}

} // verus!
