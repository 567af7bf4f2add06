//! What is kept: messages and files of each conversation, peers known from
//! earlier, and groups. The tables here are what a database file is read into
//! and what every change of it is decided on.
//!
//! A conversation is one line of time. Of records at the same millisecond the
//! id decides, so that a page that ends in the middle of them neither loses
//! one nor shows one twice.

use crate::groups;
use crate::groups::Group;
use crate::order;
use crate::order::{sort_ranked, Ranked};
use crate::table;
use crate::table::{Keyed, Table};
use crate::text;
use crate::text::{
    chars_of, code_of, contains_char, contains_str, ends_with, find_from, less_text, owned,
    same_text,
};
use crate::utf8;
use vstd::prelude::*;
use vstd::string::StringExecFns;

verus! {

/// The version of the tables.
pub const SCHEMA_VERSION: i32 = 3;

/// Why something could not be kept.
#[derive(Debug, Clone, PartialEq, Eq)]
pub enum StorageError {
    Sqlite(String),
}

impl StorageError {
    /// The message for the user.
    pub open spec fn message(self) -> Seq<char> {
        match self {
            StorageError::Sqlite(why) => "sqlite: "@ + why@,
        }
    }

    /// The message for the user.
    pub fn to_text(&self) -> (r: String)
        ensures
            r@ == self.message(),
    {
        match self {
            StorageError::Sqlite(why) => {
                let mut s = owned("sqlite: ");
                s.append(why.as_str());
                s
            },
        }
    }
}

/// A record that was found.
#[derive(Debug, Clone, PartialEq)]
pub struct SearchHit {
    pub peer_fp: String,
    pub ts_ms: i64,
    /// The message, or the name of the file.
    pub snippet: String,
    /// `text` or `file`.
    pub kind: String,
}

/// The last record of a conversation.
#[derive(Debug, Clone, PartialEq)]
pub struct ConvSummary {
    pub peer_fp: String,
    pub ts_ms: i64,
    /// The message, or the name of the file.
    pub snippet: String,
    /// `text` or `file`.
    pub kind: String,
}

/// A peer known from earlier.
#[derive(Debug, Clone, PartialEq)]
pub struct KnownPeer {
    pub fingerprint: String,
    pub nickname: String,
    /// `native` or `ipmsg`.
    pub protocol: String,
    pub last_addr: Option<String>,
    pub last_seen_ms: i64,
    pub group: Option<String>,
}

/// A record of a conversation.
#[derive(Debug, Clone, PartialEq)]
pub enum HistoryItem {
    Text {
        id: String,
        peer_fp: String,
        direction: String,
        body: String,
        ts_ms: i64,
        sender_fp: Option<String>,
    },
    File {
        xfer_id: String,
        peer_fp: String,
        direction: String,
        name: String,
        size: i64,
        is_dir: bool,
        status: String,
        path: Option<String>,
        ts_ms: i64,
    },
}

// ---------------------------------------------------------------------------
// Model
// ---------------------------------------------------------------------------

/// A record by value.
#[verifier::ext_equal]
pub enum ItemRow {
    Text {
        id: Seq<char>,
        peer_fp: Seq<char>,
        direction: Seq<char>,
        body: Seq<char>,
        ts_ms: i64,
        sender_fp: Option<Seq<char>>,
    },
    File {
        xfer_id: Seq<char>,
        peer_fp: Seq<char>,
        direction: Seq<char>,
        name: Seq<char>,
        size: i64,
        is_dir: bool,
        status: Seq<char>,
        path: Option<Seq<char>>,
        ts_ms: i64,
    },
}

impl View for HistoryItem {
    type V = ItemRow;

    open spec fn view(&self) -> ItemRow {
        match *self {
            HistoryItem::Text { id, peer_fp, direction, body, ts_ms, sender_fp } => ItemRow::Text {
                id: id@,
                peer_fp: peer_fp@,
                direction: direction@,
                body: body@,
                ts_ms,
                sender_fp: text::opt_text(sender_fp),
            },
            HistoryItem::File {
                xfer_id,
                peer_fp,
                direction,
                name,
                size,
                is_dir,
                status,
                path,
                ts_ms,
            } => ItemRow::File {
                xfer_id: xfer_id@,
                peer_fp: peer_fp@,
                direction: direction@,
                name: name@,
                size,
                is_dir,
                status: status@,
                path: text::opt_text(path),
                ts_ms,
            },
        }
    }
}

impl ItemRow {
    /// The id of the record.
    pub open spec fn id_of(self) -> Seq<char> {
        match self {
            ItemRow::Text { id, .. } => id,
            ItemRow::File { xfer_id, .. } => xfer_id,
        }
    }

    /// The time of the record.
    pub open spec fn ts(self) -> i64 {
        match self {
            ItemRow::Text { ts_ms, .. } => ts_ms,
            ItemRow::File { ts_ms, .. } => ts_ms,
        }
    }

    /// The conversation of the record.
    pub open spec fn conversation(self) -> Seq<char> {
        match self {
            ItemRow::Text { peer_fp, .. } => peer_fp,
            ItemRow::File { peer_fp, .. } => peer_fp,
        }
    }

    /// The message, or the name of the file.
    pub open spec fn snippet(self) -> Seq<char> {
        match self {
            ItemRow::Text { body, .. } => body,
            ItemRow::File { name, .. } => name,
        }
    }

    /// What the record is called.
    pub open spec fn kind(self) -> Seq<char> {
        match self {
            ItemRow::Text { .. } => "text"@,
            ItemRow::File { .. } => "file"@,
        }
    }
}

/// The order of records: by time, then by id; a message comes before a file
/// with the same id.
pub open spec fn item_before(a: ItemRow, b: ItemRow) -> bool {
    a.ts() < b.ts() || (a.ts() == b.ts() && (text::text_less(a.id_of(), b.id_of()) || (a.id_of()
        == b.id_of() && a is Text && b is File)))
}

/// Whether a record stands before a time and an id.
pub open spec fn stands_before(a: ItemRow, ts: i64, id: Seq<char>) -> bool {
    a.ts() < ts || (a.ts() == ts && text::text_less(a.id_of(), id))
}

/// Records by value.
pub open spec fn item_rows(v: Seq<HistoryItem>) -> Seq<ItemRow> {
    v.map_values(|i: HistoryItem| i@)
}

/// The key of a record: its kind and its id. A message and a file may have the
/// same id.
pub open spec fn tagged(x: ItemRow) -> Seq<char> {
    match x {
        ItemRow::Text { id, .. } => seq!['m'] + id,
        ItemRow::File { xfer_id, .. } => seq!['f'] + xfer_id,
    }
}

/// Whether a record is kept.
pub open spec fn holds(r: Map<Seq<char>, ItemRow>, x: ItemRow) -> bool {
    r.dom().contains(tagged(x)) && r[tagged(x)] == x
}

/// What part of the records is asked for.
#[verifier::ext_equal]
pub struct Part {
    /// One conversation, or all.
    pub peer: Option<Seq<char>>,
    /// Only what stands before a time and an id.
    pub before: Option<(i64, Seq<char>)>,
    /// Only what is not older.
    pub from: Option<i64>,
}

/// Whether a record belongs to the part.
pub open spec fn in_part(p: Part, x: ItemRow) -> bool {
    &&& p.peer matches Some(fp) ==> x.conversation() == fp
    &&& p.before matches Some((ts, id)) ==> stands_before(x, ts, id)
    &&& p.from matches Some(ts) ==> x.ts() >= ts
}

/// Whether a list holds the records of a part, each once, in order.
pub open spec fn is_timeline(r: Map<Seq<char>, ItemRow>, p: Part, t: Seq<ItemRow>) -> bool {
    &&& forall|i: int, j: int|
        0 <= i < j < t.len() ==> item_before(#[trigger] t[i], #[trigger] t[j])
    &&& forall|x: ItemRow| #[trigger] t.contains(x) == (holds(r, x) && in_part(p, x))
}

/// The last so many of a list.
pub open spec fn last_of<A>(t: Seq<A>, n: int) -> Seq<A> {
    if n < t.len() {
        t.skip(t.len() - n)
    } else {
        t
    }
}

/// The first so many of a list.
pub open spec fn first_of<A>(t: Seq<A>, n: int) -> Seq<A> {
    if n < t.len() {
        t.take(n)
    } else {
        t
    }
}

proof fn lemma_item_order(a: ItemRow, b: ItemRow, c: ItemRow)
    ensures
        !item_before(a, a),
        item_before(a, b) ==> !item_before(b, a),
        item_before(a, b) && item_before(b, c) ==> item_before(a, c),
        !item_before(b, a) && !item_before(c, b) ==> !item_before(c, a),
        item_before(a, b) || item_before(b, a) || (a.ts() == b.ts() && a.id_of() == b.id_of() && (a
            is Text) == (b is Text)),
{
    text::lemma_text_order(a.id_of(), b.id_of(), c.id_of());
    text::lemma_text_order(c.id_of(), b.id_of(), a.id_of());
    text::lemma_text_less_irreflexive(a.id_of());
    text::lemma_text_less_irreflexive(b.id_of());
    text::lemma_text_less_total(a.id_of(), b.id_of());
    text::lemma_text_less_total(b.id_of(), c.id_of());
    text::lemma_text_less_total(a.id_of(), c.id_of());
    if text::text_less(a.id_of(), b.id_of()) && text::text_less(b.id_of(), c.id_of()) {
        text::lemma_text_less_transitive(a.id_of(), b.id_of(), c.id_of());
    }
    if text::text_less(a.id_of(), b.id_of()) && text::text_less(b.id_of(), a.id_of()) {
        text::lemma_text_less_transitive(a.id_of(), b.id_of(), a.id_of());
    }
    if text::text_less(c.id_of(), b.id_of()) && text::text_less(b.id_of(), a.id_of()) {
        text::lemma_text_less_transitive(c.id_of(), b.id_of(), a.id_of());
    }
    if text::text_less(c.id_of(), a.id_of()) && text::text_less(a.id_of(), b.id_of()) {
        text::lemma_text_less_transitive(c.id_of(), a.id_of(), b.id_of());
    }
    if text::text_less(b.id_of(), c.id_of()) && text::text_less(c.id_of(), a.id_of()) {
        text::lemma_text_less_transitive(b.id_of(), c.id_of(), a.id_of());
    }
}

/// There is one timeline of a part.
pub proof fn law_timeline_is_unique(
    r: Map<Seq<char>, ItemRow>,
    p: Part,
    a: Seq<ItemRow>,
    b: Seq<ItemRow>,
)
    requires
        is_timeline(r, p, a),
        is_timeline(r, p, b),
    ensures
        a == b,
{
    assert forall|x: ItemRow| a.contains(x) == #[trigger] b.contains(x) by {
        assert(a.contains(x) == (holds(r, x) && in_part(p, x)));
    }
    lemma_ascending_unique(a, b);
}

proof fn lemma_ascending_unique(a: Seq<ItemRow>, b: Seq<ItemRow>)
    requires
        forall|i: int, j: int|
            0 <= i < j < a.len() ==> item_before(#[trigger] a[i], #[trigger] a[j]),
        forall|i: int, j: int|
            0 <= i < j < b.len() ==> item_before(#[trigger] b[i], #[trigger] b[j]),
        forall|x: ItemRow| a.contains(x) == #[trigger] b.contains(x),
    ensures
        a == b,
    decreases a.len(),
{
    if a.len() == 0 {
        if b.len() > 0 {
            assert(b.contains(b[0]));
        }
        assert(a =~= b);
    } else {
        let x = a.last();
        assert(a.contains(x));
        assert(b.contains(x));
        let k = choose|k: int| 0 <= k < b.len() && b[k] == x;
        let y = b.last();
        assert(b.contains(y));
        let m = choose|m: int| 0 <= m < a.len() && a[m] == y;
        lemma_item_order(x, y, x);
        if k < b.len() - 1 {
            assert(item_before(b[k], b[b.len() - 1]));
            if m < a.len() - 1 {
                assert(item_before(a[m], a[a.len() - 1]));
            }
        }
        assert(x == y);
        let a1 = a.drop_last();
        let b1 = b.drop_last();
        assert forall|z: ItemRow| a1.contains(z) == #[trigger] b1.contains(z) by {
            lemma_front_contains(a, z);
            lemma_front_contains(b, z);
            assert(a.contains(z) == b.contains(z));
        }
        lemma_ascending_unique(a1, b1);
        assert(a =~= a1.push(x));
        assert(b =~= b1.push(x));
    }
}

proof fn lemma_front_contains(a: Seq<ItemRow>, z: ItemRow)
    requires
        a.len() > 0,
        forall|i: int, j: int|
            0 <= i < j < a.len() ==> item_before(#[trigger] a[i], #[trigger] a[j]),
    ensures
        a.drop_last().contains(z) == (a.contains(z) && z != a.last()),
{
    let f = a.drop_last();
    if f.contains(z) {
        let k = choose|k: int| 0 <= k < f.len() && f[k] == z;
        assert(a[k] == z);
        assert(item_before(a[k], a[a.len() - 1]));
        lemma_item_order(z, z, z);
    }
    if a.contains(z) && z != a.last() {
        let k = choose|k: int| 0 <= k < a.len() && a[k] == z;
        assert(f[k] == z);
    }
}

// ---------------------------------------------------------------------------
// Records
// ---------------------------------------------------------------------------

fn copy_opt(o: &Option<String>) -> (r: Option<String>)
    ensures
        text::opt_text(r) == text::opt_text(*o),
{
    match o {
        Some(s) => Some(owned(s.as_str())),
        None => None,
    }
}

impl HistoryItem {
    /// The time of the record.
    pub fn ts_ms(&self) -> (r: i64)
        ensures
            r == self@.ts(),
    {
        match self {
            HistoryItem::Text { ts_ms, .. } => *ts_ms,
            HistoryItem::File { ts_ms, .. } => *ts_ms,
        }
    }

    /// The id of the record.
    pub fn id(&self) -> (r: &str)
        ensures
            r@ == self@.id_of(),
    {
        match self {
            HistoryItem::Text { id, .. } => id.as_str(),
            HistoryItem::File { xfer_id, .. } => xfer_id.as_str(),
        }
    }

    /// The conversation of the record.
    pub fn conversation(&self) -> (r: &str)
        ensures
            r@ == self@.conversation(),
    {
        match self {
            HistoryItem::Text { peer_fp, .. } => peer_fp.as_str(),
            HistoryItem::File { peer_fp, .. } => peer_fp.as_str(),
        }
    }

    /// The message, or the name of the file.
    pub fn snippet(&self) -> (r: &str)
        ensures
            r@ == self@.snippet(),
    {
        match self {
            HistoryItem::Text { body, .. } => body.as_str(),
            HistoryItem::File { name, .. } => name.as_str(),
        }
    }

    /// What the record is called.
    pub fn kind(&self) -> (r: &str)
        ensures
            r@ == self@.kind(),
    {
        match self {
            HistoryItem::Text { .. } => "text",
            HistoryItem::File { .. } => "file",
        }
    }

    fn is_text(&self) -> (r: bool)
        ensures
            r == (self@ is Text),
    {
        match self {
            HistoryItem::Text { .. } => true,
            HistoryItem::File { .. } => false,
        }
    }

    /// A copy of the record.
    pub fn copied(&self) -> (r: Self)
        ensures
            r@ == self@,
    {
        match self {
            HistoryItem::Text { id, peer_fp, direction, body, ts_ms, sender_fp } => {
                HistoryItem::Text {
                    id: owned(id.as_str()),
                    peer_fp: owned(peer_fp.as_str()),
                    direction: owned(direction.as_str()),
                    body: owned(body.as_str()),
                    ts_ms: *ts_ms,
                    sender_fp: copy_opt(sender_fp),
                }
            },
            HistoryItem::File {
                xfer_id,
                peer_fp,
                direction,
                name,
                size,
                is_dir,
                status,
                path,
                ts_ms,
            } => {
                HistoryItem::File {
                    xfer_id: owned(xfer_id.as_str()),
                    peer_fp: owned(peer_fp.as_str()),
                    direction: owned(direction.as_str()),
                    name: owned(name.as_str()),
                    size: *size,
                    is_dir: *is_dir,
                    status: owned(status.as_str()),
                    path: copy_opt(path),
                    ts_ms: *ts_ms,
                }
            },
        }
    }
}

fn key_of(is_text: bool, id: &str) -> (r: String)
    ensures
        r@ == (if is_text {
            seq!['m']
        } else {
            seq!['f']
        }) + id@,
{
    let mut s: String = String::new();
    if is_text {
        s.push('m');
    } else {
        s.push('f');
    }
    s.append(id);
    assert(s@ =~= (if is_text {
        seq!['m']
    } else {
        seq!['f']
    }) + id@);
    s
}

impl Keyed for HistoryItem {
    open spec fn key(self) -> Seq<char> {
        tagged(self@)
    }

    fn has_key(&self, k: &str) -> (r: bool) {
        let key = key_of(self.is_text(), self.id());
        same_text(key.as_str(), k)
    }
}

impl Ranked for HistoryItem {
    open spec fn before(self, other: Self) -> bool {
        item_before(self@, other@)
    }

    fn comes_before(&self, other: &Self) -> (r: bool) {
        let a: i64 = self.ts_ms();
        let b: i64 = other.ts_ms();
        if a != b {
            return a < b;
        }
        if less_text(self.id(), other.id()) {
            return true;
        }
        same_text(self.id(), other.id()) && self.is_text() && !other.is_text()
    }
}

proof fn lemma_rank_is_order()
    ensures
        order::is_weak_order(order::by_rank::<HistoryItem>()),
{
    let less = order::by_rank::<HistoryItem>();
    assert forall|a: HistoryItem, b: HistoryItem| #[trigger] less(a, b) implies !less(b, a) by {
        lemma_item_order(a@, b@, b@);
    }
    assert forall|a: HistoryItem, b: HistoryItem, c: HistoryItem|
        !(#[trigger] less(b, a)) && !(#[trigger] less(c, b)) implies !less(c, a) by {
        lemma_item_order(a@, b@, c@);
    }
}

proof fn lemma_tagged(a: ItemRow, b: ItemRow)
    ensures
        tagged(a) == tagged(b) <==> a.id_of() == b.id_of() && (a is Text) == (b is Text),
{
    if tagged(a) == tagged(b) {
        assert(tagged(a)[0] == tagged(b)[0]);
        assert(tagged(a).skip(1) =~= a.id_of());
        assert(tagged(b).skip(1) =~= b.id_of());
    }
}

/// A text that may be there, by value.
pub open spec fn opt_str(o: Option<&str>) -> Option<Seq<char>> {
    match o {
        Some(s) => Some(s@),
        None => None,
    }
}

/// A cursor by value.
pub open spec fn cursor_row(c: Option<(i64, &str)>) -> Option<(i64, Seq<char>)> {
    match c {
        Some((ts, id)) => Some((ts, id@)),
        None => None,
    }
}

fn belongs(
    item: &HistoryItem,
    peer: Option<&str>,
    before: Option<(i64, &str)>,
    from: Option<i64>,
) -> (r: bool)
    ensures
        r == in_part(
            Part { peer: opt_str(peer), before: cursor_row(before), from },
            item@,
        ),
{
    if let Some(fp) = peer {
        if !same_text(item.conversation(), fp) {
            return false;
        }
    }
    if let Some((ts, id)) = before {
        let t: i64 = item.ts_ms();
        if !(t < ts || (t == ts && less_text(item.id(), id))) {
            return false;
        }
    }
    if let Some(ts) = from {
        let t: i64 = item.ts_ms();
        if t < ts {
            return false;
        }
    }
    true
}

/// What is kept.
#[derive(Debug)]
pub struct Storage {
    items: Table<HistoryItem>,
    peers: Table<KnownPeer>,
    groups: Table<KeptGroup>,
}

impl Keyed for KnownPeer {
    open spec fn key(self) -> Seq<char> {
        self.fingerprint@
    }

    fn has_key(&self, k: &str) -> (r: bool) {
        same_text(self.fingerprint.as_str(), k)
    }
}

/// A peer by value.
#[verifier::ext_equal]
pub struct KnownRow {
    pub fingerprint: Seq<char>,
    pub nickname: Seq<char>,
    pub protocol: Seq<char>,
    pub last_addr: Option<Seq<char>>,
    pub last_seen_ms: i64,
    pub group: Option<Seq<char>>,
}

impl View for KnownPeer {
    type V = KnownRow;

    open spec fn view(&self) -> KnownRow {
        KnownRow {
            fingerprint: self.fingerprint@,
            nickname: self.nickname@,
            protocol: self.protocol@,
            last_addr: text::opt_text(self.last_addr),
            last_seen_ms: self.last_seen_ms,
            group: text::opt_text(self.group),
        }
    }
}

/// A group as it is kept, with the time at which it was first kept.
#[derive(Debug, Clone, PartialEq, Eq)]
pub struct KeptGroup {
    pub group: Group,
    pub created_ts: i64,
}

/// A kept group by value.
#[verifier::ext_equal]
pub struct KeptRow {
    pub group: groups::GroupRow,
    pub created_ts: i64,
}

impl View for KeptGroup {
    type V = KeptRow;

    open spec fn view(&self) -> KeptRow {
        KeptRow { group: self.group@, created_ts: self.created_ts }
    }
}

impl Keyed for KeptGroup {
    open spec fn key(self) -> Seq<char> {
        self.group.group_id@
    }

    fn has_key(&self, k: &str) -> (r: bool) {
        same_text(self.group.group_id.as_str(), k)
    }
}

impl KeptGroup {
    /// A copy of the group.
    pub fn copied(&self) -> (r: Self)
        ensures
            r@ == self@,
    {
        KeptGroup { group: self.group.copied(), created_ts: self.created_ts }
    }
}

/// Kept groups by value.
pub open spec fn kept_rows(v: Seq<KeptGroup>) -> Seq<KeptRow> {
    v.map_values(|k: KeptGroup| k@)
}

/// The groups themselves.
pub open spec fn groups_in(kept: Map<Seq<char>, KeptRow>) -> Map<Seq<char>, groups::GroupRow> {
    kept.map_values(|k: KeptRow| k.group)
}

impl Storage {
    /// The records by kind and id.
    pub closed spec fn records(&self) -> Map<Seq<char>, ItemRow> {
        self.items@.map_values(|i: HistoryItem| i@)
    }

    /// The peers by fingerprint.
    pub closed spec fn known(&self) -> Map<Seq<char>, KnownRow> {
        self.peers@.map_values(|p: KnownPeer| p@)
    }

    /// The groups by id.
    pub closed spec fn kept_groups(&self) -> Map<Seq<char>, KeptRow> {
        self.groups@.map_values(|k: KeptGroup| k@)
    }

    /// What a database file holds is kept, each row of it: the messages and files,
    /// the known peers and the groups. With no rows nothing is kept.
    pub fn open(records: Vec<JoinedRow>, peers: Vec<KnownPeer>, given: Vec<KeptGroup>) -> (
    r: Self)
        ensures
            r.records() == records_of(items_in(records@)),
            r.known() == peers_of(known_rows(peers@)),
            r.kept_groups() == groups_of(kept_rows(given@)),
    {
        let mut r = Storage { items: Table::new(), peers: Table::new(), groups: Table::new() };
        let ghost item_list = items_in(records@);
        let ghost peer_list = known_rows(peers@);
        let ghost group_list = kept_rows(given@);
        proof {
            assert(item_list.take(0) =~= Seq::<ItemRow>::empty());
            assert(peer_list.take(0) =~= Seq::<KnownRow>::empty());
            assert(group_list.take(0) =~= Seq::<KeptRow>::empty());
            assert(r.records() =~= Map::<Seq<char>, ItemRow>::empty());
            assert(r.known() =~= Map::<Seq<char>, KnownRow>::empty());
            assert(r.kept_groups() =~= Map::<Seq<char>, KeptRow>::empty());
        }
        for row in it: records
            invariant
                it.seq().len() == item_list.len(),
                forall|k: int|
                    0 <= k < item_list.len() ==> item_list[k] == item_in(#[trigger] it.seq()[k]),
                r.records() == records_of(item_list.take(it.index())),
                r.known() == Map::<Seq<char>, KnownRow>::empty(),
                r.kept_groups() == Map::<Seq<char>, KeptRow>::empty(),
        {
            proof {
                let n = it.index();
                assert(item_list.take(n + 1).drop_last() =~= item_list.take(n));
                assert(item_list.take(n + 1).last() == item_in(row));
            }
            r.restore(row_to_item(row));
        }
        assert(item_list.take(item_list.len() as int) =~= item_list);
        for peer in it: peers
            invariant
                it.seq().len() == peer_list.len(),
                forall|k: int|
                    0 <= k < peer_list.len() ==> peer_list[k] == (#[trigger] it.seq()[k])@,
                r.records() == records_of(item_list),
                r.known() == peers_of(peer_list.take(it.index())),
                r.kept_groups() == Map::<Seq<char>, KeptRow>::empty(),
        {
            proof {
                let n = it.index();
                assert(peer_list.take(n + 1).drop_last() =~= peer_list.take(n));
                assert(peer_list.take(n + 1).last() == peer@);
            }
            r.restore_peer(peer);
        }
        assert(peer_list.take(peer_list.len() as int) =~= peer_list);
        for group in it: given
            invariant
                it.seq().len() == group_list.len(),
                forall|k: int|
                    0 <= k < group_list.len() ==> group_list[k] == (#[trigger] it.seq()[k])@,
                r.records() == records_of(item_list),
                r.known() == peers_of(peer_list),
                r.kept_groups() == groups_of(group_list.take(it.index())),
        {
            proof {
                let n = it.index();
                assert(group_list.take(n + 1).drop_last() =~= group_list.take(n));
                assert(group_list.take(n + 1).last() == group@);
            }
            r.restore_group(group);
        }
        assert(group_list.take(group_list.len() as int) =~= group_list);
        r
    }

    /// The records of a part, in order.
    fn gather(
        &self,
        peer: Option<&str>,
        before: Option<(i64, &str)>,
        from: Option<i64>,
    ) -> (r: Vec<HistoryItem>)
        ensures
            is_timeline(
                self.records(),
                Part { peer: opt_str(peer), before: cursor_row(before), from },
                item_rows(r@),
            ),
    {
        let ghost part = Part { peer: opt_str(peer), before: cursor_row(before), from };
        let rows: &Vec<HistoryItem> = self.items.rows();
        let mut out: Vec<HistoryItem> = Vec::new();
        let ghost mut at: Seq<int> = Seq::empty();
        let mut i: usize = 0;
        while i < rows.len()
            invariant
                i <= rows.len(),
                part == (Part { peer: opt_str(peer), before: cursor_row(before), from }),
                at.len() == out@.len(),
                forall|k: int|
                    0 <= k < at.len() ==> 0 <= #[trigger] at[k] < i && out@[k]@ == rows@[at[k]]@
                        && in_part(part, out@[k]@),
                forall|k: int, m: int| 0 <= k < m < at.len() ==> #[trigger] at[k] < #[trigger] at[m],
                forall|k: int|
                    0 <= k < i && in_part(part, (#[trigger] rows@[k])@) ==> exists|m: int|
                        0 <= m < out@.len() && (#[trigger] out@[m])@ == rows@[k]@,
            decreases rows.len() - i,
        {
            let ghost before_out = out@;
            if belongs(&rows[i], peer, before, from) {
                out.push(rows[i].copied());
                proof {
                    at = at.push(i as int);
                    assert(out@[before_out.len() as int]@ == rows@[i as int]@);
                    assert forall|k: int| 0 <= k < i + 1 && in_part(
                        part,
                        (#[trigger] rows@[k])@,
                    ) implies exists|m: int|
                        0 <= m < out@.len() && (#[trigger] out@[m])@ == rows@[k]@ by {
                        if k < i {
                            let m = choose|m: int|
                                0 <= m < before_out.len() && (#[trigger] before_out[m])@
                                    == rows@[k]@;
                            assert(out@[m]@ == rows@[k]@);
                        } else {
                            assert(out@[before_out.len() as int]@ == rows@[k]@);
                        }
                    }
                }
            }
            i = i + 1;
        }
        let ghost picked = out@;
        let r = sort_ranked(out);
        proof {
            let less = order::by_rank::<HistoryItem>();
            lemma_rank_is_order();
            assert forall|a: int, b: int| 0 <= a < b < picked.len() implies (
            #[trigger] picked[a]).key() != (#[trigger] picked[b]).key() by {
                assert(at[a] < at[b]);
                assert(rows@[at[a]].key() != rows@[at[b]].key());
            }
            table::lemma_sorted_rows(picked, less);
            table::lemma_map_of(picked);
            table::lemma_map_of(rows@);
            table::lemma_map_of(r@);
            order::law_sorted(picked, less);
            let t = item_rows(r@);
            assert forall|i: int, j: int| 0 <= i < j < t.len() implies item_before(
                #[trigger] t[i],
                #[trigger] t[j],
            ) by {
                assert(!less(r@[j], r@[i]));
                assert(r@[i].key() != r@[j].key());
                lemma_tagged(r@[i]@, r@[j]@);
                lemma_item_order(r@[i]@, r@[j]@, r@[i]@);
            }
            let known = self.records();
            assert forall|x: ItemRow| #[trigger] t.contains(x) == (holds(known, x) && in_part(
                part,
                x,
            )) by {
                if t.contains(x) {
                    let a = choose|a: int| 0 <= a < t.len() && t[a] == x;
                    let k = r@[a].key();
                    assert(table::map_of(r@).dom().contains(k));
                    assert(table::map_of(picked).dom().contains(k));
                    let b = choose|b: int| 0 <= b < picked.len() && (#[trigger] picked[b]).key()
                        == k;
                    assert(table::map_of(picked)[k] == picked[b]);
                    assert(table::map_of(r@)[k] == r@[a]);
                    assert(picked[b]@ == rows@[at[b]]@);
                    assert(rows@[at[b]].key() == k);
                    assert(table::map_of(rows@)[k] == rows@[at[b]]);
                }
                if holds(known, x) && in_part(part, x) {
                    let k = tagged(x);
                    assert(table::map_of(rows@).dom().contains(k));
                    let a = choose|a: int| 0 <= a < rows@.len() && (#[trigger] rows@[a]).key()
                        == k;
                    assert(table::map_of(rows@)[k] == rows@[a]);
                    assert(rows@[a]@ == x);
                    let m = choose|m: int|
                        0 <= m < picked.len() && (#[trigger] picked[m])@ == rows@[a]@;
                    assert(picked[m].key() == k);
                    assert(table::map_of(picked).dom().contains(k));
                    assert(table::map_of(picked)[k] == picked[m]);
                    assert(table::map_of(r@).dom().contains(k));
                    let b = choose|b: int| 0 <= b < r@.len() && (#[trigger] r@[b]).key() == k;
                    assert(table::map_of(r@)[k] == r@[b]);
                    assert(t[b] == x);
                }
            }
        }
        r
    }
}

// ---------------------------------------------------------------------------
// Reading
// ---------------------------------------------------------------------------

/// The most bytes that a pattern may have.
pub const MAX_PATTERN_BYTES: usize = 50_000;

/// A character as it counts in a search: capitals and small letters of ASCII are
/// the same, and what is no character is the replacement character.
pub open spec fn search_char(c: char) -> char {
    if c == '\u{FFFE}' || c == '\u{FFFF}' {
        '\u{FFFD}'
    } else {
        text::ascii_lower(c)
    }
}

/// Text as it counts in a search: up to the first zero character.
pub open spec fn search_text(s: Seq<char>) -> Seq<char> {
    s.take(text::index_of(s, '\u{0}')).map_values(|c: char| search_char(c))
}

/// Whether a record holds what is searched for: the message or the name holds
/// it as it stands. A query with a zero character counts up to that, and has to
/// stand at the end.
pub open spec fn matches_query(x: ItemRow, query: Seq<char>) -> bool {
    if query.contains('\u{0}') {
        text::has_suffix(search_text(x.snippet()), search_text(query))
    } else {
        text::contains_text(search_text(x.snippet()), search_text(query))
    }
}

/// A query with what stands for more than itself in a pattern escaped.
pub open spec fn escaped_query(query: Seq<char>) -> Seq<char>
    decreases query.len(),
{
    if query.len() == 0 {
        Seq::empty()
    } else {
        let c = query.last();
        escaped_query(query.drop_last()) + if c == '\\' || c == '%' || c == '_' {
            seq!['\\', c]
        } else {
            seq![c]
        }
    }
}

/// The pattern for a query.
pub open spec fn pattern_of(query: Seq<char>) -> Seq<char> {
    seq!['%'] + escaped_query(query) + seq!['%']
}

/// Whether the pattern for a query has too many bytes.
pub open spec fn is_too_long(query: Seq<char>) -> bool {
    utf8::byte_len(pattern_of(query)) > MAX_PATTERN_BYTES
}

/// Why a query with too long a pattern finds nothing.
pub open spec fn pattern_refused(e: StorageError) -> bool {
    e matches StorageError::Sqlite(why) && why@ == "LIKE or GLOB pattern too complex"@
}

/// What a search brings, given all records in order: where there is a record to
/// look at, too long a query is refused.
pub open spec fn is_search_result(
    r: Result<Vec<SearchHit>, StorageError>,
    t: Seq<ItemRow>,
    query: Seq<char>,
    limit: u32,
) -> bool {
    let refused = t.len() > 0 && limit > 0 && is_too_long(query);
    match r {
        Ok(hits) => !refused && hits@.map_values(|h: SearchHit| h@) == hits_of(
            first_of(found(t, t.len() as int, query), limit as int),
        ),
        Err(e) => refused && pattern_refused(e),
    }
}

/// The pattern for a query.
fn like_pattern(query: &str) -> (r: String)
    ensures
        r@ == pattern_of(query@),
{
    let v: Vec<char> = chars_of(query);
    let mut out: String = String::new();
    out.push('%');
    let mut i: usize = 0;
    assert(query@.take(0) =~= Seq::<char>::empty());
    assert(out@ =~= seq!['%'] + escaped_query(query@.take(0)));
    while i < v.len()
        invariant
            i <= v.len(),
            v@ == query@,
            out@ == seq!['%'] + escaped_query(query@.take(i as int)),
        decreases v.len() - i,
    {
        let c: char = v[i];
        let ghost before = out@;
        let ghost t = query@.take(i + 1);
        assert(t.drop_last() =~= query@.take(i as int));
        assert(t.last() == c);
        if c == '\\' || c == '%' || c == '_' {
            out.push('\\');
        }
        out.push(c);
        assert(out@ =~= seq!['%'] + escaped_query(t));
        i = i + 1;
    }
    assert(query@.take(i as int) =~= query@);
    out.push('%');
    assert(out@ =~= pattern_of(query@));
    out
}

/// Text as it counts in a search.
fn text_for_search(s: &str) -> (r: String)
    ensures
        r@ == search_text(s@),
{
    let v: Vec<char> = chars_of(s);
    let end: usize = find_from(&v, 0, '\u{0}');
    let mut out: String = String::new();
    let mut i: usize = 0;
    let ghost cut = s@.take(text::index_of(s@, '\u{0}'));
    let ghost f = |c: char| search_char(c);
    proof {
        text::lemma_index_of(s@, '\u{0}');
        assert(s@.skip(0) =~= s@);
        assert(out@ =~= cut.take(0).map_values(f));
    }
    while i < end
        invariant
            i <= end <= v.len(),
            v@ == s@,
            end == cut.len(),
            cut == s@.take(end as int),
            f == (|c: char| search_char(c)),
            out@ == cut.take(i as int).map_values(f),
        decreases end - i,
    {
        let c: char = v[i];
        let u: u32 = code_of(c);
        let d: char = if c == '\u{FFFE}' || c == '\u{FFFF}' {
            '\u{FFFD}'
        } else if 65 <= u && u <= 90 {
            (u as u8 + 32) as char
        } else {
            c
        };
        out.push(d);
        assert(d == search_char(c));
        assert(cut.take(i + 1).map_values(f) =~= cut.take(i as int).map_values(f).push(d));
        i = i + 1;
    }
    assert(cut.take(i as int) =~= cut);
    out
}

/// The first `n` records of a timeline that hold what is searched for, the
/// latest first.
pub open spec fn found(t: Seq<ItemRow>, n: int, query: Seq<char>) -> Seq<ItemRow>
    decreases n,
{
    if n <= 0 {
        Seq::empty()
    } else if matches_query(t[n - 1], query) {
        seq![t[n - 1]] + found(t, n - 1, query)
    } else {
        found(t, n - 1, query)
    }
}

/// Whether a record is the last of its conversation.
pub open spec fn is_latest(t: Seq<ItemRow>, i: int) -> bool {
    forall|j: int|
        i < j < t.len() ==> (#[trigger] t[j]).conversation() != t[i].conversation()
}

/// Those of the first `n` records of a timeline that are the last of their
/// conversations, the latest first.
pub open spec fn latest(t: Seq<ItemRow>, n: int) -> Seq<ItemRow>
    decreases n,
{
    if n <= 0 {
        Seq::empty()
    } else if is_latest(t, n - 1) {
        seq![t[n - 1]] + latest(t, n - 1)
    } else {
        latest(t, n - 1)
    }
}

/// What is shown of a record.
#[verifier::ext_equal]
pub struct HitRow {
    pub peer_fp: Seq<char>,
    pub ts_ms: i64,
    pub snippet: Seq<char>,
    pub kind: Seq<char>,
}

/// What is shown of a record.
pub open spec fn hit_of(x: ItemRow) -> HitRow {
    HitRow {
        peer_fp: x.conversation(),
        ts_ms: x.ts(),
        snippet: x.snippet(),
        kind: x.kind(),
    }
}

impl View for SearchHit {
    type V = HitRow;

    open spec fn view(&self) -> HitRow {
        HitRow {
            peer_fp: self.peer_fp@,
            ts_ms: self.ts_ms,
            snippet: self.snippet@,
            kind: self.kind@,
        }
    }
}

impl View for ConvSummary {
    type V = HitRow;

    open spec fn view(&self) -> HitRow {
        HitRow {
            peer_fp: self.peer_fp@,
            ts_ms: self.ts_ms,
            snippet: self.snippet@,
            kind: self.kind@,
        }
    }
}

/// What is shown of records.
pub open spec fn hits_of(t: Seq<ItemRow>) -> Seq<HitRow> {
    t.map_values(|x: ItemRow| hit_of(x))
}

/// The part of one conversation.
pub open spec fn part_of(peer: Seq<char>, before: Option<(i64, Seq<char>)>) -> Part {
    Part { peer: Some(peer), before, from: None }
}

/// The part of one conversation from a time on.
pub open spec fn part_from(peer: Seq<char>, ts: i64) -> Part {
    Part { peer: Some(peer), before: None, from: Some(ts) }
}

/// All conversations.
pub open spec fn everything() -> Part {
    Part { peer: None, before: None, from: None }
}

/// Summaries by value.
pub open spec fn summary_rows(v: Seq<ConvSummary>) -> Seq<HitRow> {
    v.map_values(|h: ConvSummary| h@)
}

spec fn talks(s: Seq<ItemRow>, c: Seq<char>) -> bool {
    exists|m: int| 0 <= m < s.len() && (#[trigger] s[m]).conversation() == c
}

proof fn lemma_talks_push(s: Seq<ItemRow>, x: ItemRow, c: Seq<char>)
    ensures
        talks(s.push(x), c) == (talks(s, c) || x.conversation() == c),
{
    if talks(s, c) {
        let m = choose|m: int| 0 <= m < s.len() && (#[trigger] s[m]).conversation() == c;
        assert(s.push(x)[m].conversation() == c);
    }
    if x.conversation() == c {
        assert(s.push(x)[s.len() as int].conversation() == c);
    }
    if talks(s.push(x), c) {
        let m = choose|m: int|
            0 <= m < s.push(x).len() && (#[trigger] s.push(x)[m]).conversation() == c;
        if m < s.len() {
            assert(s[m].conversation() == c);
        }
    }
}

proof fn lemma_talks_front(s: Seq<ItemRow>, x: ItemRow, c: Seq<char>)
    ensures
        talks(seq![x] + s, c) == (talks(s, c) || x.conversation() == c),
{
    let w = seq![x] + s;
    if talks(s, c) {
        let m = choose|m: int| 0 <= m < s.len() && (#[trigger] s[m]).conversation() == c;
        assert(w[m + 1].conversation() == c);
    }
    if x.conversation() == c {
        assert(w[0].conversation() == c);
    }
    if talks(w, c) {
        let m = choose|m: int| 0 <= m < w.len() && (#[trigger] w[m]).conversation() == c;
        if m > 0 {
            assert(s[m - 1].conversation() == c);
        }
    }
}

proof fn lemma_latest_talks(t: Seq<ItemRow>, i: int)
    requires
        0 <= i < t.len(),
    ensures
        is_latest(t, i) == !talks(t.skip(i + 1), t[i].conversation()),
{
    let later = t.skip(i + 1);
    let c = t[i].conversation();
    if talks(later, c) {
        let m = choose|m: int| 0 <= m < later.len() && (#[trigger] later[m]).conversation() == c;
        assert(t[i + 1 + m].conversation() == c);
    }
    if !is_latest(t, i) {
        let j = choose|j: int| i < j < t.len() && (#[trigger] t[j]).conversation() == c;
        assert(later[j - i - 1].conversation() == c);
    }
}

spec fn has_summary(v: Seq<ConvSummary>, c: Seq<char>) -> bool {
    exists|m: int| 0 <= m < v.len() && (#[trigger] v[m]).peer_fp@ == c
}

proof fn lemma_summarized(v: Seq<ConvSummary>, done: Seq<ItemRow>, c: Seq<char>)
    requires
        v.len() == done.len(),
        summary_rows(v) == hits_of(done),
    ensures
        has_summary(v, c) == talks(done, c),
{
    assert forall|m: int| 0 <= m < v.len() implies (#[trigger] v[m]).peer_fp@
        == done[m].conversation() by {
        assert(summary_rows(v)[m] == v[m]@);
        assert(hits_of(done)[m] == hit_of(done[m]));
    }
    if talks(done, c) {
        let m = choose|m: int| 0 <= m < done.len() && (#[trigger] done[m]).conversation() == c;
        assert(v[m].peer_fp@ == c);
    }
    if has_summary(v, c) {
        let m = choose|m: int| 0 <= m < v.len() && (#[trigger] v[m]).peer_fp@ == c;
        assert(done[m].conversation() == c);
    }
}

fn summarized(v: &Vec<ConvSummary>, c: &str) -> (r: bool)
    ensures
        r == has_summary(v@, c@),
{
    let mut k: usize = 0;
    while k < v.len()
        invariant
            k <= v@.len(),
            forall|m: int| 0 <= m < k ==> (#[trigger] v@[m]).peer_fp@ != c@,
        decreases v.len() - k,
    {
        if same_text(v[k].peer_fp.as_str(), c) {
            assert(v@[k as int].peer_fp@ == c@);
            return true;
        }
        k = k + 1;
    }
    false
}

fn copy_range(v: &Vec<HistoryItem>, from: usize, to: usize) -> (r: Vec<HistoryItem>)
    requires
        from <= to <= v@.len(),
    ensures
        item_rows(r@) == item_rows(v@).subrange(from as int, to as int),
{
    let mut out: Vec<HistoryItem> = Vec::new();
    let mut i: usize = from;
    while i < to
        invariant
            from <= i <= to <= v@.len(),
            out@.len() == i - from,
            forall|k: int| 0 <= k < out@.len() ==> (#[trigger] out@[k])@ == v@[from + k]@,
        decreases to - i,
    {
        out.push(v[i].copied());
        i = i + 1;
    }
    assert(item_rows(out@) =~= item_rows(v@).subrange(from as int, to as int));
    out
}

impl Storage {
    /// The latest records of a conversation, at most so many, in order. With a
    /// cursor, those before it.
    pub fn history(&self, peer_fp: &str, before: Option<(i64, &str)>, limit: u32) -> (r: Vec<
        HistoryItem,
    >)
        ensures
            exists|t: Seq<ItemRow>| #[trigger]
                is_timeline(self.records(), part_of(peer_fp@, cursor_row(before)), t) && item_rows(
                    r@,
                ) == last_of(t, limit as int),
    {
        let all = self.gather(Some(peer_fp), before, None);
        let n: usize = all.len();
        let ghost t = item_rows(all@);
        assert(is_timeline(self.records(), part_of(peer_fp@, cursor_row(before)), t));
        let from: usize = if n as u64 > limit as u64 {
            n - limit as usize
        } else {
            0
        };
        let r = copy_range(&all, from, n);
        assert(item_rows(r@) =~= last_of(t, limit as int));
        r
    }

    /// The records around a time: at most so many before it, and one more from
    /// it on, in order.
    pub fn history_around(&self, peer_fp: &str, ts_ms: i64, half: u32) -> (r: Vec<HistoryItem>)
        requires
            half < u32::MAX,
        ensures
            exists|t: Seq<ItemRow>, u: Seq<ItemRow>|
                is_timeline(
                    self.records(),
                    part_of(peer_fp@, Some((ts_ms, Seq::<char>::empty()))),
                    t,
                ) && is_timeline(self.records(), part_from(peer_fp@, ts_ms), u) && item_rows(r@)
                    == #[trigger] last_of(t, half as int) + #[trigger] first_of(u, half + 1),
    {
        proof {
            reveal_strlit("");
            assert(""@ =~= Seq::<char>::empty());
        }
        let older = self.gather(Some(peer_fp), Some((ts_ms, "")), None);
        let newer = self.gather(Some(peer_fp), None, Some(ts_ms));
        let ghost t = item_rows(older@);
        let ghost u = item_rows(newer@);
        assert(is_timeline(
            self.records(),
            part_of(peer_fp@, Some((ts_ms, Seq::<char>::empty()))),
            t,
        ));
        assert(is_timeline(self.records(), part_from(peer_fp@, ts_ms), u));
        let n: usize = older.len();
        let m: usize = newer.len();
        let from: usize = if n as u64 > half as u64 {
            n - half as usize
        } else {
            0
        };
        let to: usize = if m as u64 > half as u64 + 1 {
            half as usize + 1
        } else {
            m
        };
        let mut r = copy_range(&older, from, n);
        let mut rest = copy_range(&newer, 0, to);
        let ghost a = r@;
        let ghost b = rest@;
        r.append(&mut rest);
        proof {
            assert(item_rows(a) =~= last_of(t, half as int));
            assert(item_rows(b) =~= first_of(u, half + 1));
            assert(item_rows(r@) =~= last_of(t, half as int) + first_of(u, half + 1));
        }
        r
    }

    /// The records that hold what is searched for, the latest first, at most so
    /// many.
    pub fn search(&self, query: &str, limit: u32) -> (r: Result<Vec<SearchHit>, StorageError>)
        ensures
            exists|t: Seq<ItemRow>| #[trigger]
                is_timeline(self.records(), everything(), t) && is_search_result(
                    r,
                    t,
                    query@,
                    limit,
                ),
    {
        let all = self.gather(None, None, None);
        let ghost t = item_rows(all@);
        assert(is_timeline(self.records(), everything(), t));
        if all.len() > 0 && limit > 0 && like_pattern(query).as_str().as_bytes().len()
            > MAX_PATTERN_BYTES {
            let r: Result<Vec<SearchHit>, StorageError> = Err(
                StorageError::Sqlite(owned("LIKE or GLOB pattern too complex")),
            );
            assert(is_search_result(r, t, query@, limit));
            return r;
        }
        let q = text_for_search(query);
        let cut_off = contains_char(query, '\u{0}');
        let mut out: Vec<SearchHit> = Vec::new();
        let mut i: usize = all.len();
        let ghost view = |h: SearchHit| h@;
        let ghost mut done: Seq<ItemRow> = Seq::empty();
        assert(done + found(t, i as int, query@) =~= found(t, t.len() as int, query@));
        assert(out@.map_values(view) =~= hits_of(done));
        while i > 0 && (out.len() as u64) < limit as u64
            invariant
                i <= all.len(),
                t == item_rows(all@),
                q@ == search_text(query@),
                cut_off == query@.contains('\u{0}'),
                view == (|h: SearchHit| h@),
                out@.len() <= limit,
                out@.len() == done.len(),
                out@.map_values(view) == hits_of(done),
                done + found(t, i as int, query@) == found(t, t.len() as int, query@),
            decreases i,
        {
            i = i - 1;
            let item: &HistoryItem = &all[i];
            let s = text_for_search(item.snippet());
            let hit = if cut_off {
                ends_with(s.as_str(), q.as_str())
            } else {
                contains_str(s.as_str(), q.as_str())
            };
            assert(t[i as int] == item@);
            let ghost before = out@;
            let ghost earlier = done;
            if hit {
                out.push(
                    SearchHit {
                        peer_fp: owned(item.conversation()),
                        ts_ms: item.ts_ms(),
                        snippet: owned(item.snippet()),
                        kind: owned(item.kind()),
                    },
                );
                proof {
                    done = done.push(item@);
                    assert(out@.map_values(view) =~= before.map_values(view).push(hit_of(item@)));
                    assert(hits_of(done) =~= hits_of(earlier).push(hit_of(item@)));
                    assert(done + found(t, i as int, query@) =~= earlier + (seq![item@] + found(
                        t,
                        i as int,
                        query@,
                    )));
                }
            }
        }
        proof {
            let f = found(t, t.len() as int, query@);
            if i == 0 {
                assert(found(t, 0, query@) =~= Seq::<ItemRow>::empty());
                assert(f =~= done);
            }
            assert(first_of(f, limit as int) =~= done);
        }
        let r: Result<Vec<SearchHit>, StorageError> = Ok(out);
        assert(is_search_result(r, t, query@, limit));
        r
    }

    /// The last record of each conversation, the latest first.
    pub fn conversation_summaries(&self) -> (r: Vec<ConvSummary>)
        ensures
            exists|t: Seq<ItemRow>| #[trigger]
                is_timeline(self.records(), everything(), t) && summary_rows(r@) == hits_of(
                    latest(t, t.len() as int),
                ),
    {
        let all = self.gather(None, None, None);
        let ghost t = item_rows(all@);
        let mut out: Vec<ConvSummary> = Vec::new();
        let mut i: usize = all.len();
        let ghost mut done: Seq<ItemRow> = Seq::empty();
        assert(is_timeline(self.records(), everything(), t));
        assert(done + latest(t, i as int) =~= latest(t, t.len() as int));
        assert(summary_rows(out@) =~= hits_of(done));
        while i > 0
            invariant
                i <= all.len(),
                t == item_rows(all@),
                out@.len() == done.len(),
                summary_rows(out@) == hits_of(done),
                done + latest(t, i as int) == latest(t, t.len() as int),
                forall|c: Seq<char>| #[trigger] talks(done, c) == talks(t.skip(i as int), c),
            decreases i,
        {
            let ghost later = t.skip(i as int);
            i = i - 1;
            let item: &HistoryItem = &all[i];
            assert(t[i as int] == item@);
            let seen = summarized(&out, item.conversation());
            let ghost before = out@;
            let ghost earlier = done;
            proof {
                lemma_summarized(out@, done, item@.conversation());
                assert(talks(done, item@.conversation()) == talks(later, item@.conversation()));
                lemma_latest_talks(t, i as int);
            }
            if !seen {
                out.push(
                    ConvSummary {
                        peer_fp: owned(item.conversation()),
                        ts_ms: item.ts_ms(),
                        snippet: owned(item.snippet()),
                        kind: owned(item.kind()),
                    },
                );
                proof {
                    done = done.push(item@);
                    assert(summary_rows(out@) =~= summary_rows(before).push(hit_of(item@)));
                    assert(hits_of(done) =~= hits_of(earlier).push(hit_of(item@)));
                    assert(done + latest(t, i as int) =~= earlier + (seq![item@] + latest(
                        t,
                        i as int,
                    )));
                }
            }
            proof {
                assert forall|c: Seq<char>| #[trigger] talks(done, c) == talks(
                    t.skip(i as int),
                    c,
                ) by {
                    assert(talks(earlier, c) == talks(later, c));
                    lemma_talks_push(earlier, item@, c);
                    lemma_talks_front(later, item@, c);
                    assert(t.skip(i as int) =~= seq![item@] + later);
                }
            }
        }
        assert(latest(t, 0) =~= Seq::<ItemRow>::empty());
        assert(done =~= latest(t, t.len() as int));
        out
    }
}

// ---------------------------------------------------------------------------
// Writing
// ---------------------------------------------------------------------------

/// Whether a file's state is one that it ends in.
pub open spec fn is_final(status: Seq<char>) -> bool {
    status == "done"@ || status == "failed"@ || status == "rejected"@
}

/// Whether a file's state is one that it ends in.
pub fn is_final_status(status: &str) -> (r: bool)
    ensures
        r == is_final(status@),
{
    same_text(status, "done") || same_text(status, "failed") || same_text(status, "rejected")
}

/// The records with one more, unless there is one under its key already.
pub open spec fn added(r: Map<Seq<char>, ItemRow>, x: ItemRow) -> Map<Seq<char>, ItemRow> {
    if r.dom().contains(tagged(x)) {
        r
    } else {
        r.insert(tagged(x), x)
    }
}

/// The key of a message.
pub open spec fn message_key(id: Seq<char>) -> Seq<char> {
    seq!['m'] + id
}

/// The key of a file.
pub open spec fn file_key(xfer_id: Seq<char>) -> Seq<char> {
    seq!['f'] + xfer_id
}

/// A file's record in another state; the path stays if no other is given.
pub open spec fn in_state(x: ItemRow, to: Seq<char>, path: Option<Seq<char>>) -> ItemRow {
    match x {
        ItemRow::File {
            xfer_id,
            peer_fp,
            direction,
            name,
            size,
            is_dir,
            status,
            path: old_path,
            ts_ms,
        } => ItemRow::File {
            xfer_id,
            peer_fp,
            direction,
            name,
            size,
            is_dir,
            status: to,
            path: if path is Some {
                path
            } else {
                old_path
            },
            ts_ms,
        },
        _ => x,
    }
}

/// The state of a file's record.
pub open spec fn state_of(x: ItemRow) -> Seq<char> {
    match x {
        ItemRow::File { status, .. } => status,
        _ => Seq::empty(),
    }
}

/// The records once a file has changed its state. An unknown file is passed
/// over, and a state that a file ends in is never left.
pub open spec fn advanced(
    r: Map<Seq<char>, ItemRow>,
    xfer_id: Seq<char>,
    to: Seq<char>,
    path: Option<Seq<char>>,
) -> Map<Seq<char>, ItemRow> {
    let k = file_key(xfer_id);
    if !r.dom().contains(k) || is_final(state_of(r[k])) {
        r
    } else {
        r.insert(k, in_state(r[k], to, path))
    }
}

/// The records without those of a conversation, or without any.
pub open spec fn cleared(r: Map<Seq<char>, ItemRow>, peer: Option<Seq<char>>) -> Map<
    Seq<char>,
    ItemRow,
> {
    Map::new(
        |k: Seq<char>|
            r.dom().contains(k) && match peer {
                Some(fp) => r[k].conversation() != fp,
                None => false,
            },
        |k: Seq<char>| r[k],
    )
}

/// A peer once it was seen again: everything is as it is now, but an address
/// stays if there is no newer one.
pub open spec fn seen_again(known: Map<Seq<char>, KnownRow>, p: KnownRow) -> KnownRow {
    if p.last_addr is None && known.dom().contains(p.fingerprint) {
        KnownRow { last_addr: known[p.fingerprint].last_addr, ..p }
    } else {
        p
    }
}

/// A group once it is kept again: who made it stays, and when.
pub open spec fn kept_again(
    kept: Map<Seq<char>, KeptRow>,
    g: groups::GroupRow,
    created_ts: i64,
) -> KeptRow {
    if kept.dom().contains(g.group_id) {
        let first = kept[g.group_id];
        KeptRow {
            group: groups::GroupRow { creator_fp: first.group.creator_fp, ..g },
            created_ts: first.created_ts,
        }
    } else {
        KeptRow { group: g, created_ts }
    }
}

/// Peers are listed by when they were seen last, then by fingerprint.
pub open spec fn known_before(a: KnownRow, b: KnownRow) -> bool {
    a.last_seen_ms > b.last_seen_ms || (a.last_seen_ms == b.last_seen_ms && text::text_less(
        a.fingerprint,
        b.fingerprint,
    ))
}

/// Peers by value.
pub open spec fn known_rows(v: Seq<KnownPeer>) -> Seq<KnownRow> {
    v.map_values(|p: KnownPeer| p@)
}

/// Whether a list holds the peers, each once, in order.
pub open spec fn is_known_listing(known: Map<Seq<char>, KnownRow>, list: Seq<KnownRow>) -> bool {
    &&& forall|i: int, j: int|
        0 <= i < j < list.len() ==> known_before(#[trigger] list[i], #[trigger] list[j])
    &&& forall|x: KnownRow| #[trigger]
        list.contains(x) == (known.dom().contains(x.fingerprint) && known[x.fingerprint] == x)
}

impl Ranked for KnownPeer {
    open spec fn before(self, other: Self) -> bool {
        known_before(self@, other@)
    }

    fn comes_before(&self, other: &Self) -> (r: bool) {
        self.last_seen_ms > other.last_seen_ms || (self.last_seen_ms == other.last_seen_ms
            && less_text(self.fingerprint.as_str(), other.fingerprint.as_str()))
    }
}

impl KnownPeer {
    /// A copy of the peer.
    pub fn copied(&self) -> (r: Self)
        ensures
            r@ == self@,
    {
        KnownPeer {
            fingerprint: owned(self.fingerprint.as_str()),
            nickname: owned(self.nickname.as_str()),
            protocol: owned(self.protocol.as_str()),
            last_addr: copy_opt(&self.last_addr),
            last_seen_ms: self.last_seen_ms,
            group: copy_opt(&self.group),
        }
    }
}

impl Storage {
    fn put(&mut self, item: HistoryItem, key: &str)
        requires
            tagged(item@) == key@,
        ensures
            final(self).records() == old(self).records().insert(key@, item@),
            final(self).known() == old(self).known(),
            final(self).kept_groups() == old(self).kept_groups(),
    {
        let ghost before = self.items@;
        let ghost row = item@;
        self.items.insert(item, key);
        assert(self.records() =~= before.map_values(|i: HistoryItem| i@).insert(key@, row));
    }

    /// The message with this id.
    pub fn message(&self, id: &str) -> (r: Option<HistoryItem>)
        ensures
            match r {
                Some(item) => self.records().dom().contains(message_key(id@)) && item@
                    == self.records()[message_key(id@)],
                None => !self.records().dom().contains(message_key(id@)),
            },
    {
        let key = key_of(true, id);
        match self.items.get(key.as_str()) {
            Some(item) => Some(item.copied()),
            None => None,
        }
    }

    /// The file with this id.
    pub fn transfer(&self, xfer_id: &str) -> (r: Option<HistoryItem>)
        ensures
            match r {
                Some(item) => self.records().dom().contains(file_key(xfer_id@)) && item@
                    == self.records()[file_key(xfer_id@)],
                None => !self.records().dom().contains(file_key(xfer_id@)),
            },
    {
        let key = key_of(false, xfer_id);
        match self.items.get(key.as_str()) {
            Some(item) => Some(item.copied()),
            None => None,
        }
    }

    /// The known peer with this fingerprint.
    pub fn known_peer(&self, fingerprint: &str) -> (r: Option<KnownPeer>)
        ensures
            match r {
                Some(p) => self.known().dom().contains(fingerprint@) && p@
                    == self.known()[fingerprint@],
                None => !self.known().dom().contains(fingerprint@),
            },
    {
        match self.peers.get(fingerprint) {
            Some(p) => Some(p.copied()),
            None => None,
        }
    }

    /// Puts a record in as it is, in place of one under its key.
    pub fn restore(&mut self, item: HistoryItem)
        ensures
            final(self).records() == old(self).records().insert(tagged(item@), item@),
            final(self).known() == old(self).known(),
            final(self).kept_groups() == old(self).kept_groups(),
    {
        let key = key_of(item.is_text(), item.id());
        self.put(item, key.as_str());
    }

    /// Puts a peer in as it is, in place of one with its fingerprint.
    fn restore_peer(&mut self, peer: KnownPeer)
        ensures
            final(self).known() == old(self).known().insert(peer@.fingerprint, peer@),
            final(self).records() == old(self).records(),
            final(self).kept_groups() == old(self).kept_groups(),
    {
        let ghost before = self.peers@;
        let ghost row = peer@;
        let key = owned(peer.fingerprint.as_str());
        self.peers.insert(peer, key.as_str());
        assert(self.known() =~= before.map_values(|p: KnownPeer| p@).insert(key@, row));
    }

    /// Puts a group in as it is, in place of one with its id.
    fn restore_group(&mut self, kept: KeptGroup)
        ensures
            final(self).kept_groups() == old(self).kept_groups().insert(
                kept@.group.group_id,
                kept@,
            ),
            final(self).records() == old(self).records(),
            final(self).known() == old(self).known(),
    {
        let ghost before = self.groups@;
        let ghost row = kept@;
        let key = owned(kept.group.group_id.as_str());
        self.groups.insert(kept, key.as_str());
        assert(self.kept_groups() =~= before.map_values(|k: KeptGroup| k@).insert(key@, row));
    }

    fn add_item(&mut self, item: HistoryItem)
        ensures
            final(self).records() == added(old(self).records(), item@),
            final(self).known() == old(self).known(),
            final(self).kept_groups() == old(self).kept_groups(),
    {
        let key = key_of(item.is_text(), item.id());
        if !self.items.contains(key.as_str()) {
            self.put(item, key.as_str());
        }
    }

    /// Keeps a message, unless one with its id is kept already.
    pub fn insert_message(
        &mut self,
        id: &str,
        peer_fp: &str,
        direction: &str,
        body: &str,
        ts_ms: i64,
        sender_fp: Option<String>,
    )
        ensures
            final(self).records() == added(
                old(self).records(),
                ItemRow::Text {
                    id: id@,
                    peer_fp: peer_fp@,
                    direction: direction@,
                    body: body@,
                    ts_ms,
                    sender_fp: text::opt_text(sender_fp),
                },
            ),
            final(self).known() == old(self).known(),
            final(self).kept_groups() == old(self).kept_groups(),
    {
        self.add_item(
            HistoryItem::Text {
                id: owned(id),
                peer_fp: owned(peer_fp),
                direction: owned(direction),
                body: owned(body),
                ts_ms,
                sender_fp,
            },
        );
    }

    /// Keeps a file, unless one with its id is kept already.
    pub fn insert_transfer(
        &mut self,
        xfer_id: &str,
        peer_fp: &str,
        direction: &str,
        name: &str,
        size: i64,
        is_dir: bool,
        status: &str,
        ts_ms: i64,
    )
        ensures
            final(self).records() == added(
                old(self).records(),
                ItemRow::File {
                    xfer_id: xfer_id@,
                    peer_fp: peer_fp@,
                    direction: direction@,
                    name: name@,
                    size,
                    is_dir,
                    status: status@,
                    path: None,
                    ts_ms,
                },
            ),
            final(self).known() == old(self).known(),
            final(self).kept_groups() == old(self).kept_groups(),
    {
        self.add_item(
            HistoryItem::File {
                xfer_id: owned(xfer_id),
                peer_fp: owned(peer_fp),
                direction: owned(direction),
                name: owned(name),
                size,
                is_dir,
                status: owned(status),
                path: None,
                ts_ms,
            },
        );
    }

    /// Changes the state of a file.
    pub fn update_transfer(&mut self, xfer_id: &str, status: &str, path: Option<String>)
        ensures
            final(self).records() == advanced(
                old(self).records(),
                xfer_id@,
                status@,
                text::opt_text(path),
            ),
            final(self).known() == old(self).known(),
            final(self).kept_groups() == old(self).kept_groups(),
    {
        let key = key_of(false, xfer_id);
        let ghost rec = self.records();
        let rows: &Vec<HistoryItem> = self.items.rows();
        proof {
            table::lemma_map_of(rows@);
            if table::map_of(rows@).dom().contains(key@) {
                let i = choose|i: int| 0 <= i < rows@.len() && (#[trigger] rows@[i]).key() == key@;
                assert(table::map_of(rows@)[key@] == rows@[i]);
            }
        }
        let next: Option<HistoryItem> = match self.items.get(key.as_str()) {
            Some(x) => {
                let mut y = x.copied();
                assert(rec[key@] == x@);
                assert(tagged(x@) == key@);
                assert(tagged(x@)[0] == 'f');
                match &mut y {
                    HistoryItem::File { status: s, path: p, .. } => {
                        if is_final_status(s.as_str()) {
                            None
                        } else {
                            *s = owned(status);
                            if path.is_some() {
                                *p = path;
                            }
                            Some(y)
                        }
                    },
                    HistoryItem::Text { .. } => None,
                }
            },
            None => None,
        };
        if let Some(y) = next {
            assert(y@ =~= in_state(rec[key@], status@, text::opt_text(path)));
            assert(tagged(y@) =~= key@);
            self.put(y, key.as_str());
        }
    }

    /// Forgets the records of a conversation, or all.
    pub fn clear_history(&mut self, peer_fp: Option<&str>)
        ensures
            final(self).records() == cleared(old(self).records(), opt_str(peer_fp)),
            final(self).known() == old(self).known(),
            final(self).kept_groups() == old(self).kept_groups(),
    {
        let ghost rec = self.records();
        let ghost who = opt_str(peer_fp);
        let mut kept: Table<HistoryItem> = Table::new();
        let rows: &Vec<HistoryItem> = self.items.rows();
        let mut i: usize = 0;
        proof {
            assert(rows@.take(0) =~= Seq::<HistoryItem>::empty());
            assert(kept@.map_values(|i: HistoryItem| i@) =~= cleared(views(rows@.take(0)), who));
        }
        while i < rows.len()
            invariant
                i <= rows.len(),
                who == opt_str(peer_fp),
                table::keys_differ(rows@),
                kept@.map_values(|i: HistoryItem| i@) == cleared(
                    views(rows@.take(i as int)),
                    who,
                ),
            decreases rows.len() - i,
        {
            let item: &HistoryItem = &rows[i];
            let keep = match peer_fp {
                Some(fp) => !same_text(item.conversation(), fp),
                None => false,
            };
            let ghost before = kept@;
            proof {
                let s = rows@.take(i as int);
                let w = rows@.take(i + 1);
                assert(w.drop_last() =~= s);
                assert(w.last() == *item);
                assert forall|a: int, b: int| 0 <= a < b < s.len() implies (
                #[trigger] s[a]).key() != (#[trigger] s[b]).key() by {
                    assert(rows@[a].key() != rows@[b].key());
                }
                table::lemma_map_of(s);
                if table::map_of(s).dom().contains(item.key()) {
                    let a = choose|a: int| 0 <= a < s.len() && (#[trigger] s[a]).key()
                        == item.key();
                    assert(rows@[a].key() != rows@[i as int].key());
                }
                assert(views(w) =~= views(s).insert(item.key(), item@));
                if !keep {
                    assert(cleared(views(w), who) =~= cleared(views(s), who));
                } else {
                    assert(cleared(views(w), who) =~= cleared(views(s), who).insert(
                        item.key(),
                        item@,
                    ));
                }
            }
            if keep {
                let c = item.copied();
                let key = key_of(c.is_text(), c.id());
                kept.insert(c, key.as_str());
                assert(kept@.map_values(|i: HistoryItem| i@) =~= before.map_values(
                    |i: HistoryItem| i@,
                ).insert(key@, c@));
            }
            i = i + 1;
        }
        proof {
            assert(rows@.take(i as int) =~= rows@);
            assert(views(rows@) =~= rec);
        }
        self.items = kept;
    }

    /// Keeps a peer that was seen.
    pub fn upsert_peer(&mut self, peer: KnownPeer)
        ensures
            final(self).known() == old(self).known().insert(
                peer@.fingerprint,
                seen_again(old(self).known(), peer@),
            ),
            final(self).records() == old(self).records(),
            final(self).kept_groups() == old(self).kept_groups(),
    {
        let ghost before = self.peers@;
        let ghost known = self.known();
        let ghost given = peer@;
        let mut peer = peer;
        let key = owned(peer.fingerprint.as_str());
        if peer.last_addr.is_none() {
            match self.peers.get(key.as_str()) {
                Some(p) => {
                    assert(known[key@] == p@);
                    peer.last_addr = copy_opt(&p.last_addr);
                },
                None => {},
            }
        }
        let ghost row = peer@;
        assert(row =~= seen_again(known, given));
        self.peers.insert(peer, key.as_str());
        assert(self.known() =~= before.map_values(|p: KnownPeer| p@).insert(key@, row));
    }

    /// The peers, those seen last first.
    pub fn known_peers(&self) -> (r: Vec<KnownPeer>)
        ensures
            is_known_listing(self.known(), known_rows(r@)),
    {
        let rows: &Vec<KnownPeer> = self.peers.rows();
        let mut v: Vec<KnownPeer> = Vec::new();
        let mut i: usize = 0;
        while i < rows.len()
            invariant
                i <= rows.len(),
                v.len() == i,
                forall|j: int| 0 <= j < i ==> (#[trigger] v@[j])@ == rows@[j]@,
            decreases rows.len() - i,
        {
            v.push(rows[i].copied());
            i = i + 1;
        }
        let ghost copied = v@;
        let r = sort_ranked(v);
        proof {
            let less = order::by_rank::<KnownPeer>();
            lemma_known_order();
            assert forall|a: int, b: int| 0 <= a < b < copied.len() implies (
            #[trigger] copied[a]).key() != (#[trigger] copied[b]).key() by {
                assert(copied[a]@ == rows@[a]@);
                assert(copied[b]@ == rows@[b]@);
                assert(rows@[a].key() != rows@[b].key());
            }
            table::lemma_sorted_rows(copied, less);
            table::lemma_map_of(copied);
            table::lemma_map_of(rows@);
            table::lemma_map_of(r@);
            let list = known_rows(r@);
            let known = self.known();
            assert forall|i: int, j: int| 0 <= i < j < list.len() implies known_before(
                #[trigger] list[i],
                #[trigger] list[j],
            ) by {
                assert(!less(r@[j], r@[i]));
                assert(r@[i].key() != r@[j].key());
                text::lemma_text_less_total(list[i].fingerprint, list[j].fingerprint);
            }
            assert forall|x: KnownRow| #[trigger] list.contains(x) == (known.dom().contains(
                x.fingerprint,
            ) && known[x.fingerprint] == x) by {
                if list.contains(x) {
                    let a = choose|a: int| 0 <= a < list.len() && list[a] == x;
                    let k = r@[a].key();
                    assert(table::map_of(r@).dom().contains(k));
                    assert(table::map_of(copied).dom().contains(k));
                    let b = choose|b: int| 0 <= b < copied.len() && (#[trigger] copied[b]).key()
                        == k;
                    assert(table::map_of(copied)[k] == copied[b]);
                    assert(table::map_of(r@)[k] == r@[a]);
                    assert(copied[b]@ == rows@[b]@);
                    assert(rows@[b].key() == k);
                    assert(table::map_of(rows@)[k] == rows@[b]);
                }
                if known.dom().contains(x.fingerprint) && known[x.fingerprint] == x {
                    let k = x.fingerprint;
                    assert(table::map_of(rows@).dom().contains(k));
                    let a = choose|a: int| 0 <= a < rows@.len() && (#[trigger] rows@[a]).key()
                        == k;
                    assert(table::map_of(rows@)[k] == rows@[a]);
                    assert(copied[a]@ == rows@[a]@);
                    assert(copied[a].key() == k);
                    assert(table::map_of(copied)[k] == copied[a]);
                    assert(table::map_of(r@).dom().contains(k));
                    let b = choose|b: int| 0 <= b < r@.len() && (#[trigger] r@[b]).key() == k;
                    assert(table::map_of(r@)[k] == r@[b]);
                    assert(list[b] == x);
                }
            }
        }
        r
    }

    /// Keeps a group. Where one with its id is kept already, its name, version and
    /// members are replaced; who made it stays, and when it was first kept.
    pub fn upsert_group(&mut self, g: &Group, created_ts: i64)
        ensures
            final(self).kept_groups() == old(self).kept_groups().insert(
                g@.group_id,
                kept_again(old(self).kept_groups(), g@, created_ts),
            ),
            final(self).records() == old(self).records(),
            final(self).known() == old(self).known(),
    {
        let ghost had = self.kept_groups();
        let mut kept = KeptGroup { group: g.copied(), created_ts };
        match self.groups.get(g.group_id.as_str()) {
            Some(first) => {
                assert(had[g.group_id@] == first@);
                kept.group.creator_fp = owned(first.group.creator_fp.as_str());
                kept.created_ts = first.created_ts;
            },
            None => {},
        }
        assert(kept@ =~= kept_again(had, g@, created_ts));
        self.restore_group(kept);
    }

    /// The group with this id, as it is kept.
    pub fn kept_group(&self, group_id: &str) -> (r: Option<KeptGroup>)
        ensures
            match r {
                Some(k) => self.kept_groups().dom().contains(group_id@) && k@
                    == self.kept_groups()[group_id@],
                None => !self.kept_groups().dom().contains(group_id@),
            },
    {
        match self.groups.get(group_id) {
            Some(k) => Some(k.copied()),
            None => None,
        }
    }

    /// Forgets a group.
    pub fn delete_group(&mut self, group_id: &str)
        ensures
            final(self).kept_groups() == old(self).kept_groups().remove(group_id@),
            final(self).records() == old(self).records(),
            final(self).known() == old(self).known(),
    {
        let ghost before = self.groups@;
        let _ = self.groups.remove(group_id);
        assert(self.kept_groups() =~= before.map_values(|k: KeptGroup| k@).remove(group_id@));
    }

    /// The groups, in no particular order.
    pub fn load_groups(&self) -> (r: Vec<Group>)
        ensures
            groups::collected(groups::group_rows(r@)) == groups_in(self.kept_groups()),
            r@.len() == self.kept_groups().dom().len(),
    {
        let rows: &Vec<KeptGroup> = self.groups.rows();
        let mut v: Vec<Group> = Vec::new();
        let mut i: usize = 0;
        while i < rows.len()
            invariant
                i <= rows.len(),
                v.len() == i,
                forall|j: int| 0 <= j < i ==> (#[trigger] v@[j])@ == rows@[j]@.group,
            decreases rows.len() - i,
        {
            v.push(rows[i].group.copied());
            i = i + 1;
        }
        proof {
            table::lemma_map_of(rows@);
            assert(groups::group_rows(v@) =~= rows@.map_values(|k: KeptGroup| k@.group));
            lemma_collected(rows@);
            assert(self.kept_groups().dom() =~= table::map_of(rows@).dom());
            assert(groups_in(self.kept_groups()) =~= table::map_of(rows@).map_values(
                |k: KeptGroup| k@.group,
            ));
        }
        v
    }
}

spec fn views(rows: Seq<HistoryItem>) -> Map<Seq<char>, ItemRow> {
    table::map_of(rows).map_values(|i: HistoryItem| i@)
}

proof fn lemma_collected(rows: Seq<KeptGroup>)
    ensures
        groups::collected(rows.map_values(|k: KeptGroup| k@.group)) == table::map_of(
            rows,
        ).map_values(|k: KeptGroup| k@.group),
    decreases rows.len(),
{
    let f = |k: KeptGroup| k@.group;
    let m = table::map_of(rows).map_values(f);
    if rows.len() == 0 {
        assert(m =~= Map::<Seq<char>, groups::GroupRow>::empty());
    } else {
        let t = rows.drop_last();
        lemma_collected(t);
        assert(rows.map_values(f).drop_last() =~= t.map_values(f));
        assert(rows.map_values(f).last() == rows.last()@.group);
        assert(m =~= table::map_of(t).map_values(f).insert(
            rows.last()@.group.group_id,
            rows.last()@.group,
        ));
    }
}

proof fn lemma_known_order()
    ensures
        order::is_weak_order(order::by_rank::<KnownPeer>()),
{
    let less = order::by_rank::<KnownPeer>();
    assert forall|a: KnownPeer, b: KnownPeer| #[trigger] less(a, b) implies !less(b, a) by {
        text::lemma_text_order(a@.fingerprint, b@.fingerprint, a@.fingerprint);
        if text::text_less(a@.fingerprint, b@.fingerprint) && text::text_less(
            b@.fingerprint,
            a@.fingerprint,
        ) {
            text::lemma_text_less_transitive(a@.fingerprint, b@.fingerprint, a@.fingerprint);
            text::lemma_text_less_irreflexive(a@.fingerprint);
        }
    }
    assert forall|a: KnownPeer, b: KnownPeer, c: KnownPeer|
        !(#[trigger] less(b, a)) && !(#[trigger] less(c, b)) implies !less(c, a) by {
        text::lemma_text_order(a@.fingerprint, b@.fingerprint, c@.fingerprint);
    }
}

// ---------------------------------------------------------------------------
// The database file
// ---------------------------------------------------------------------------

/// A row of the query that joins messages and files.
#[derive(Debug, Clone, PartialEq)]
pub struct JoinedRow {
    pub kind: String,
    pub id: String,
    pub peer_fp: String,
    pub direction: String,
    /// The message, or the name of the file.
    pub content: String,
    pub status: Option<String>,
    pub size: i64,
    pub is_dir: i32,
    pub path: Option<String>,
    pub ts_ms: i64,
    pub sender_fp: Option<String>,
}

/// The record of a joined row.
pub open spec fn item_in(row: JoinedRow) -> ItemRow {
    if row.kind@ == "text"@ {
        ItemRow::Text {
            id: row.id@,
            peer_fp: row.peer_fp@,
            direction: row.direction@,
            body: row.content@,
            ts_ms: row.ts_ms,
            sender_fp: text::opt_text(row.sender_fp),
        }
    } else {
        ItemRow::File {
            xfer_id: row.id@,
            peer_fp: row.peer_fp@,
            direction: row.direction@,
            name: row.content@,
            size: row.size,
            is_dir: row.is_dir != 0,
            status: match row.status {
                Some(s) => s@,
                None => Seq::empty(),
            },
            path: text::opt_text(row.path),
            ts_ms: row.ts_ms,
        }
    }
}

/// The records of joined rows.
pub open spec fn items_in(rows: Seq<JoinedRow>) -> Seq<ItemRow> {
    rows.map_values(|row: JoinedRow| item_in(row))
}

/// The records after the given ones have been put in, one after the other.
pub open spec fn records_of(given: Seq<ItemRow>) -> Map<Seq<char>, ItemRow>
    decreases given.len(),
{
    if given.len() == 0 {
        Map::empty()
    } else {
        records_of(given.drop_last()).insert(tagged(given.last()), given.last())
    }
}

/// The peers after the given ones have been put in, one after the other.
pub open spec fn peers_of(given: Seq<KnownRow>) -> Map<Seq<char>, KnownRow>
    decreases given.len(),
{
    if given.len() == 0 {
        Map::empty()
    } else {
        peers_of(given.drop_last()).insert(given.last().fingerprint, given.last())
    }
}

/// The groups after the given ones have been put in, one after the other.
pub open spec fn groups_of(given: Seq<KeptRow>) -> Map<Seq<char>, KeptRow>
    decreases given.len(),
{
    if given.len() == 0 {
        Map::empty()
    } else {
        groups_of(given.drop_last()).insert(given.last().group.group_id, given.last())
    }
}

/// The record of a joined row.
pub fn row_to_item(row: JoinedRow) -> (r: HistoryItem)
    ensures
        r@ == item_in(row),
{
    if same_text(row.kind.as_str(), "text") {
        HistoryItem::Text {
            id: row.id,
            peer_fp: row.peer_fp,
            direction: row.direction,
            body: row.content,
            ts_ms: row.ts_ms,
            sender_fp: row.sender_fp,
        }
    } else {
        let status = match row.status {
            Some(s) => s,
            None => {
                let e: String = String::new();
                assert(e@ =~= Seq::<char>::empty());
                e
            },
        };
        HistoryItem::File {
            xfer_id: row.id,
            peer_fp: row.peer_fp,
            direction: row.direction,
            name: row.content,
            size: row.size,
            is_dir: row.is_dir != 0,
            status,
            path: row.path,
            ts_ms: row.ts_ms,
        }
    }
}

/// The versions that a database file of a version is brought through, in order.
pub open spec fn steps_from(version: i32, to: int) -> Seq<i32>
    decreases to,
{
    if to <= 0 {
        Seq::empty()
    } else if version < to {
        steps_from(version, to - 1).push(to as i32)
    } else {
        steps_from(version, to - 1)
    }
}

/// The versions that a database file of a version is brought through, in order.
pub fn migrate(version: i32) -> (r: Vec<i32>)
    ensures
        r@ == steps_from(version, SCHEMA_VERSION as int),
{
    let mut v: Vec<i32> = Vec::new();
    let mut to: i32 = 1;
    while to <= SCHEMA_VERSION
        invariant
            1 <= to <= SCHEMA_VERSION + 1,
            v@ == steps_from(version, to - 1),
        decreases SCHEMA_VERSION + 1 - to,
    {
        if version < to {
            v.push(to);
        }
        to = to + 1;
    }
    v
}

// ---------------------------------------------------------------------------
// Laws
// ---------------------------------------------------------------------------

/// What stands before a record of a timeline is what the timeline holds before
/// it, so the page that ends at a page's first record joins it without a gap
/// and without overlap, also where many records have the same time.
pub proof fn law_pages_join(
    r: Map<Seq<char>, ItemRow>,
    peer: Seq<char>,
    t: Seq<ItemRow>,
    m: int,
    u: Seq<ItemRow>,
)
    requires
        is_timeline(r, part_of(peer, None), t),
        0 <= m < t.len(),
        forall|i: int|
            0 <= i < t.len() && i != m ==> (#[trigger] t[i]).ts() != t[m].ts() || t[i].id_of()
                != t[m].id_of(),
        is_timeline(r, part_of(peer, Some((t[m].ts(), t[m].id_of()))), u),
    ensures
        u == t.take(m),
{
    let p = part_of(peer, Some((t[m].ts(), t[m].id_of())));
    let f = t.take(m);
    assert(is_timeline(r, p, f)) by {
        assert forall|i: int, j: int| 0 <= i < j < f.len() implies item_before(
            #[trigger] f[i],
            #[trigger] f[j],
        ) by {
            assert(item_before(t[i], t[j]));
        }
        assert forall|x: ItemRow| #[trigger] f.contains(x) == (holds(r, x) && in_part(p, x)) by {
            assert(t.contains(x) == (holds(r, x) && in_part(part_of(peer, None), x)));
            if f.contains(x) {
                let i = choose|i: int| 0 <= i < f.len() && f[i] == x;
                assert(t[i] == x);
                assert(item_before(t[i], t[m]));
                assert(t[i].ts() != t[m].ts() || t[i].id_of() != t[m].id_of());
            }
            if holds(r, x) && in_part(p, x) {
                let i = choose|i: int| 0 <= i < t.len() && t[i] == x;
                text::lemma_text_less_irreflexive(t[m].id_of());
                if i > m {
                    assert(item_before(t[m], t[i]));
                    lemma_item_order(t[m], t[i], t[m]);
                    if text::text_less(t[m].id_of(), t[i].id_of()) && text::text_less(
                        t[i].id_of(),
                        t[m].id_of(),
                    ) {
                        text::lemma_text_less_transitive(
                            t[m].id_of(),
                            t[i].id_of(),
                            t[m].id_of(),
                        );
                    }
                }
                assert(i < m);
                assert(f[i] == x);
            }
        }
    }
    law_timeline_is_unique(r, p, u, f);
}

/// What stands before a time and what stands from it on make up the whole
/// conversation, each record once.
pub proof fn law_time_splits_a_conversation(
    r: Map<Seq<char>, ItemRow>,
    peer: Seq<char>,
    ts: i64,
    t: Seq<ItemRow>,
    older: Seq<ItemRow>,
    newer: Seq<ItemRow>,
)
    requires
        is_timeline(r, part_of(peer, None), t),
        is_timeline(r, part_of(peer, Some((ts, Seq::<char>::empty()))), older),
        is_timeline(r, part_from(peer, ts), newer),
    ensures
        t == older + newer,
{
    let p = part_of(peer, Some((ts, Seq::<char>::empty())));
    let q = part_from(peer, ts);
    let w = older + newer;
    assert forall|x: ItemRow| #[trigger] stands_before(x, ts, Seq::<char>::empty()) == (x.ts()
        < ts) by {}
    assert(is_timeline(r, part_of(peer, None), w)) by {
        assert forall|i: int, j: int| 0 <= i < j < w.len() implies item_before(
            #[trigger] w[i],
            #[trigger] w[j],
        ) by {
            if j < older.len() {
                assert(item_before(older[i], older[j]));
            } else if i >= older.len() {
                assert(item_before(newer[i - older.len()], newer[j - older.len()]));
            } else {
                assert(older.contains(older[i]));
                assert(newer.contains(newer[j - older.len()]));
                assert(in_part(p, older[i]));
                assert(in_part(q, newer[j - older.len()]));
            }
        }
        assert forall|x: ItemRow| #[trigger] w.contains(x) == (holds(r, x) && in_part(
            part_of(peer, None),
            x,
        )) by {
            assert(older.contains(x) == (holds(r, x) && in_part(p, x)));
            assert(newer.contains(x) == (holds(r, x) && in_part(q, x)));
            if w.contains(x) {
                let i = choose|i: int| 0 <= i < w.len() && w[i] == x;
                if i < older.len() {
                    assert(older[i] == x);
                } else {
                    assert(newer[i - older.len()] == x);
                }
            }
            if older.contains(x) {
                let i = choose|i: int| 0 <= i < older.len() && older[i] == x;
                assert(w[i] == x);
            }
            if newer.contains(x) {
                let i = choose|i: int| 0 <= i < newer.len() && newer[i] == x;
                assert(w[older.len() + i] == x);
            }
        }
    }
    law_timeline_is_unique(r, part_of(peer, None), t, w);
}

/// A state that a file ends in is never left, whatever comes later.
pub proof fn law_final_state_stays(
    r: Map<Seq<char>, ItemRow>,
    xfer_id: Seq<char>,
    to: Seq<char>,
    path: Option<Seq<char>>,
)
    requires
        r.dom().contains(file_key(xfer_id)),
        is_final(state_of(r[file_key(xfer_id)])),
    ensures
        advanced(r, xfer_id, to, path) == r,
{
}

/// Keeping a record again changes nothing.
pub proof fn law_keeping_twice_is_keeping_once(r: Map<Seq<char>, ItemRow>, x: ItemRow)
    ensures
        added(added(r, x), x) == added(r, x),
        r.dom().contains(tagged(x)) ==> added(r, x)[tagged(x)] == r[tagged(x)],
{
}

/// Forgetting a conversation leaves the others as they are.
pub proof fn law_clearing_keeps_other_conversations(
    r: Map<Seq<char>, ItemRow>,
    peer: Seq<char>,
    x: ItemRow,
)
    ensures
        holds(cleared(r, Some(peer)), x) == (holds(r, x) && x.conversation() != peer),
        !holds(cleared(r, None), x),
{
}

/// A peer that is seen without an address keeps the one it had.
pub proof fn law_known_address_is_kept(known: Map<Seq<char>, KnownRow>, p: KnownRow)
    requires
        known.dom().contains(p.fingerprint),
        p.last_addr is None,
    ensures
        seen_again(known, p).last_addr == known[p.fingerprint].last_addr,
        seen_again(known, p).nickname == p.nickname,
        seen_again(known, p).last_seen_ms == p.last_seen_ms,
{
}

proof fn lemma_records_of(given: Seq<ItemRow>)
    requires
        forall|i: int, j: int|
            0 <= i < j < given.len() && tagged(#[trigger] given[i]) == tagged(#[trigger] given[j])
                ==> given[i] == given[j],
    ensures
        forall|x: ItemRow| #[trigger] holds(records_of(given), x) == given.contains(x),
    decreases given.len(),
{
    if given.len() > 0 {
        let t = given.drop_last();
        let last = given.last();
        lemma_records_of(t);
        assert forall|x: ItemRow| #[trigger] holds(records_of(given), x) == given.contains(x) by {
            assert(holds(records_of(t), x) == t.contains(x));
            if t.contains(x) {
                let i = choose|i: int| 0 <= i < t.len() && t[i] == x;
                assert(given[i] == x);
                assert(tagged(given[i]) == tagged(given[given.len() - 1]) ==> x == last);
            }
            if given.contains(x) && x != last {
                let i = choose|i: int| 0 <= i < given.len() && given[i] == x;
                assert(t[i] == x);
            }
            assert(given[given.len() - 1] == last);
        }
    }
}

proof fn lemma_peers_of(given: Seq<KnownRow>)
    requires
        forall|i: int, j: int|
            0 <= i < j < given.len() && (#[trigger] given[i]).fingerprint == (
            #[trigger] given[j]).fingerprint ==> given[i] == given[j],
    ensures
        forall|x: KnownRow| #[trigger]
            given.contains(x) == (peers_of(given).dom().contains(x.fingerprint) && peers_of(
                given,
            )[x.fingerprint] == x),
    decreases given.len(),
{
    if given.len() > 0 {
        let t = given.drop_last();
        let last = given.last();
        lemma_peers_of(t);
        assert forall|x: KnownRow| #[trigger]
            given.contains(x) == (peers_of(given).dom().contains(x.fingerprint) && peers_of(
                given,
            )[x.fingerprint] == x) by {
            assert(t.contains(x) == (peers_of(t).dom().contains(x.fingerprint) && peers_of(
                t,
            )[x.fingerprint] == x));
            if t.contains(x) {
                let i = choose|i: int| 0 <= i < t.len() && t[i] == x;
                assert(given[i] == x);
                assert(given[i].fingerprint == given[given.len() - 1].fingerprint ==> x == last);
            }
            if given.contains(x) && x != last {
                let i = choose|i: int| 0 <= i < given.len() && given[i] == x;
                assert(t[i] == x);
            }
            assert(given[given.len() - 1] == last);
        }
    }
}

/// Records that are written out, in whatever order, are the records that are
/// kept when the file is opened again.
pub proof fn law_reopening_keeps_the_records(
    r: Map<Seq<char>, ItemRow>,
    written: Seq<ItemRow>,
)
    requires
        forall|x: ItemRow| #[trigger] written.contains(x) == holds(r, x),
    ensures
        forall|x: ItemRow| #[trigger] holds(records_of(written), x) == holds(r, x),
{
    assert forall|i: int, j: int|
        0 <= i < j < written.len() && tagged(#[trigger] written[i]) == tagged(
            #[trigger] written[j],
        ) implies written[i] == written[j] by {
        assert(written.contains(written[i]));
        assert(written.contains(written[j]));
    }
    lemma_records_of(written);
}

/// The listed peers, written out, are listed again when the file is opened again.
pub proof fn law_reopening_keeps_the_peers(known: Map<Seq<char>, KnownRow>, list: Seq<KnownRow>)
    requires
        is_known_listing(known, list),
    ensures
        is_known_listing(peers_of(list), list),
{
    assert forall|i: int, j: int|
        0 <= i < j < list.len() && (#[trigger] list[i]).fingerprint == (
        #[trigger] list[j]).fingerprint implies list[i] == list[j] by {
        assert(list.contains(list[i]));
        assert(list.contains(list[j]));
    }
    lemma_peers_of(list);
}

/// Keeping a group again leaves who made it, and when it was first kept.
pub proof fn law_group_keeps_its_origin(
    kept: Map<Seq<char>, KeptRow>,
    g: groups::GroupRow,
    created_ts: i64,
)
    requires
        kept.dom().contains(g.group_id),
    ensures
        ({
            let k = kept_again(kept, g, created_ts);
            &&& k.group.creator_fp == kept[g.group_id].group.creator_fp
            &&& k.created_ts == kept[g.group_id].created_ts
            &&& k.group.name == g.name
            &&& k.group.version == g.version
            &&& k.group.members == g.members
        }),
{
}

/// A database file of the current version, or a later one, is left as it is; an
/// older one is brought through every version in between.
pub proof fn law_migration_ends_at_the_current_version(version: i32)
    ensures
        version >= SCHEMA_VERSION ==> steps_from(version, SCHEMA_VERSION as int).len() == 0,
        version < SCHEMA_VERSION ==> steps_from(version, SCHEMA_VERSION as int).last()
            == SCHEMA_VERSION,
        version <= 0 ==> steps_from(version, SCHEMA_VERSION as int) == seq![1i32, 2i32, 3i32],
{
    reveal_with_fuel(steps_from, 4);
    if version <= 0 {
        assert(steps_from(version, 3) =~= seq![1i32, 2i32, 3i32]);
    }
}

/// A record under a free key is kept as it was given, and no other record is lost or
/// changed by it. A message and a file never stand in each other's way, and nor do
/// two messages, or two files, with different ids.
pub proof fn law_kept_record_is_there(r: Map<Seq<char>, ItemRow>, x: ItemRow, y: ItemRow)
    ensures
        !r.dom().contains(tagged(x)) ==> holds(added(r, x), x),
        holds(r, y) ==> holds(added(r, x), y),
        holds(added(r, x), y) ==> holds(r, y) || y == x,
        (x is Text) != (y is Text) || x.id_of() != y.id_of() ==> tagged(x) != tagged(y),
{
    lemma_tagged(x, y);
}

/// A file that is known and has not ended takes on its new state, and the path if one
/// is given, and keeps everything else: who sent it, its direction, its name, its
/// size, its time, and whether it is a directory. No other record changes.
pub proof fn law_file_takes_on_its_state(
    r: Map<Seq<char>, ItemRow>,
    xfer_id: Seq<char>,
    to: Seq<char>,
    path: Option<Seq<char>>,
    other: Seq<char>,
)
    requires
        other != file_key(xfer_id),
    ensures
        ({
            let k = file_key(xfer_id);
            let after = advanced(r, xfer_id, to, path);
            &&& after.dom() == r.dom()
            &&& r.dom().contains(other) ==> after[other] == r[other]
            &&& r.dom().contains(k) && r[k] is File && !(r[k]->status == "done"@ || r[k]->status
                == "failed"@ || r[k]->status == "rejected"@) ==> {
                &&& after[k] is File
                &&& after[k]->status == to
                &&& path is Some ==> after[k]->path == path
                &&& path is None ==> after[k]->path == r[k]->path
                &&& after[k]->xfer_id == r[k]->xfer_id
                &&& after[k].conversation() == r[k].conversation()
                &&& after[k]->File_direction == r[k]->File_direction
                &&& after[k]->name == r[k]->name
                &&& after[k]->size == r[k]->size
                &&& after[k]->is_dir == r[k]->is_dir
                &&& after[k].ts() == r[k].ts()
            }
        }),
{
    assert(advanced(r, xfer_id, to, path).dom() =~= r.dom());
}

/// A file ends when it is done, has failed or was rejected, and not while it is offered
/// or under way.
pub proof fn law_files_end_in_three_ways()
    ensures
        is_final("done"@),
        is_final("failed"@),
        is_final("rejected"@),
        !is_final("offered"@),
        !is_final("active"@),
{
    reveal_strlit("done");
    reveal_strlit("failed");
    reveal_strlit("rejected");
    reveal_strlit("offered");
    reveal_strlit("active");
    assert("done"@.len() == 4 && "failed"@.len() == 6 && "rejected"@.len() == 8);
    assert("offered"@.len() == 7 && "active"@.len() == 6);
    assert("failed"@[0] == 'f' && "active"@[0] == 'a');
}

/// Reads whether a record holds what is searched for.
pub open spec fn matching(query: Seq<char>) -> spec_fn(ItemRow) -> bool {
    |x: ItemRow| matches_query(x, query)
}

/// A search brings every record that holds what is searched for, once, and no other, the
/// latest first.
pub proof fn law_search_finds_all(t: Seq<ItemRow>, n: int, query: Seq<char>)
    requires
        0 <= n <= t.len(),
    ensures
        found(t, n, query) == t.take(n).filter(matching(query)).reverse(),
        forall|x: ItemRow| #[trigger]
            found(t, n, query).contains(x) <==> t.take(n).contains(x) && matches_query(x, query),
    decreases n,
{
    reveal(Seq::filter);
    let p = matching(query);
    if n > 0 {
        law_search_finds_all(t, n - 1, query);
        let u = t.take(n);
        assert(u.drop_last() =~= t.take(n - 1));
        assert(u.last() == t[n - 1]);
        if matches_query(t[n - 1], query) {
            assert(u.filter(p) =~= t.take(n - 1).filter(p).push(t[n - 1]));
            assert(u.filter(p).reverse() =~= seq![t[n - 1]] + t.take(n - 1).filter(p).reverse());
        }
    } else {
        assert(t.take(n).filter(p) =~= Seq::<ItemRow>::empty());
        assert(found(t, n, query) =~= t.take(n).filter(p).reverse());
    }
    assert forall|x: ItemRow| #[trigger] found(t, n, query).contains(x) <==> t.take(n).contains(x)
        && matches_query(x, query) by {
        crate::seqs::lemma_filter_contains(t.take(n), p, x);
        let f = t.take(n).filter(p);
        if f.contains(x) {
            let i = choose|i: int| 0 <= i < f.len() && f[i] == x;
            assert(f.reverse()[f.len() - 1 - i] == x);
        }
        if f.reverse().contains(x) {
            let i = choose|i: int| 0 <= i < f.reverse().len() && f.reverse()[i] == x;
            assert(f[f.len() - 1 - i] == x);
        }
    }
}

/// Whether text holds nothing that counts otherwise in a search than it stands.
pub open spec fn is_plain_text(s: Seq<char>) -> bool {
    forall|i: int|
        0 <= i < s.len() ==> #[trigger] s[i] != '\u{0}' && s[i] != '\u{FFFE}' && s[i] != '\u{FFFF}'
}

proof fn lemma_plain_search_text(s: Seq<char>)
    requires
        is_plain_text(s),
    ensures
        search_text(s) == text::lower_text(s),
        !s.contains('\u{0}'),
{
    text::lemma_index_of(s, '\u{0}');
    assert(s.take(s.len() as int) =~= s);
    assert(search_text(s) =~= text::lower_text(s));
}

/// A message or a file is found by a query exactly if the text of the message, or the
/// name of the file, holds the query somewhere, as it stands but for the case of the
/// letters of ASCII. A percent sign or an underscore stands for itself.
pub proof fn law_query_is_looked_for_as_it_stands(x: ItemRow, query: Seq<char>)
    requires
        is_plain_text(query),
        is_plain_text(match x {
            ItemRow::Text { body, .. } => body,
            ItemRow::File { name, .. } => name,
        }),
    ensures
        matches_query(x, query) <==> text::contains_text(
            text::lower_text(
                match x {
                    ItemRow::Text { body, .. } => body,
                    ItemRow::File { name, .. } => name,
                },
            ),
            text::lower_text(query),
        ),
{
    lemma_plain_search_text(query);
    lemma_plain_search_text(x.snippet());
}

/// What is shown of a record: the conversation, the time, and the text of the message or
/// the name of the file; the two kinds are told apart.
pub proof fn law_hit_shows_the_record(x: ItemRow, y: ItemRow)
    ensures
        x matches ItemRow::Text { peer_fp, body, ts_ms, .. } ==> hit_of(x).peer_fp == peer_fp
            && hit_of(x).snippet == body && hit_of(x).ts_ms == ts_ms,
        x matches ItemRow::File { peer_fp, name, ts_ms, .. } ==> hit_of(x).peer_fp == peer_fp
            && hit_of(x).snippet == name && hit_of(x).ts_ms == ts_ms,
        hit_of(x).kind == hit_of(y).kind <==> (x is Text) == (y is Text),
{
    reveal_strlit("text");
    reveal_strlit("file");
    assert("text"@[0] != "file"@[0]);
}

proof fn lemma_latest_contains(t: Seq<ItemRow>, n: int, i: int)
    requires
        0 <= i < n <= t.len(),
        is_latest(t, i),
    ensures
        latest(t, n).contains(t[i]),
    decreases n,
{
    if is_latest(t, n - 1) {
        if i == n - 1 {
            assert(latest(t, n)[0] == t[i]);
        } else {
            lemma_latest_contains(t, n - 1, i);
            let rest = latest(t, n - 1);
            let k = choose|k: int| 0 <= k < rest.len() && rest[k] == t[i];
            assert(latest(t, n)[k + 1] == t[i]);
        }
    } else {
        lemma_latest_contains(t, n - 1, i);
    }
}

proof fn lemma_latest_from(t: Seq<ItemRow>, n: int, k: int)
    requires
        0 <= n <= t.len(),
        0 <= k < latest(t, n).len(),
    ensures
        exists|i: int|
            0 <= i < n && #[trigger] is_latest(t, i) && latest(t, n)[k] == t[i],
    decreases n,
{
    if is_latest(t, n - 1) {
        if k > 0 {
            lemma_latest_from(t, n - 1, k - 1);
            let i = choose|i: int|
                0 <= i < n - 1 && #[trigger] is_latest(t, i) && latest(t, n - 1)[k - 1] == t[i];
            assert(latest(t, n)[k] == t[i]);
        }
    } else {
        lemma_latest_from(t, n - 1, k);
    }
}

proof fn lemma_last_of_conversation(t: Seq<ItemRow>, i: int) -> (m: int)
    requires
        0 <= i < t.len(),
    ensures
        i <= m < t.len(),
        is_latest(t, m),
        t[m].conversation() == t[i].conversation(),
    decreases t.len() - i,
{
    if is_latest(t, i) {
        i
    } else {
        let j = choose|j: int|
            i < j < t.len() && (#[trigger] t[j]).conversation() == t[i].conversation();
        lemma_last_of_conversation(t, j)
    }
}

/// The list of conversations holds one record of every conversation, its latest: for
/// each record there is one of the same conversation that is not older, and nothing is
/// listed that is followed by a record of its conversation.
pub proof fn law_every_conversation_is_summed_up(t: Seq<ItemRow>, i: int, k: int)
    ensures
        0 <= i < t.len() ==> exists|m: int|
            i <= m < t.len() && (#[trigger] t[m]).conversation() == t[i].conversation() && latest(
                t,
                t.len() as int,
            ).contains(t[m]),
        0 <= k < latest(t, t.len() as int).len() ==> exists|m: int|
            0 <= m < t.len() && #[trigger] t[m] == latest(t, t.len() as int)[k] && forall|j: int|
                m < j < t.len() ==> (#[trigger] t[j]).conversation() != t[m].conversation(),
{
    let n = t.len() as int;
    if 0 <= i < n {
        let m = lemma_last_of_conversation(t, i);
        lemma_latest_contains(t, n, m);
        assert(t[m].conversation() == t[i].conversation());
    }
    if 0 <= k < latest(t, n).len() {
        lemma_latest_from(t, n, k);
        let m = choose|m: int| 0 <= m < n && #[trigger] is_latest(t, m) && latest(t, n)[k] == t[m];
        assert(t[m] == latest(t, n)[k]);
    }
}

/// No conversation is listed twice.
pub proof fn law_conversation_is_summed_up_once(t: Seq<ItemRow>, n: int, a: int, b: int)
    requires
        0 <= n <= t.len(),
        0 <= a < b < latest(t, n).len(),
    ensures
        latest(t, n)[a].conversation() != latest(t, n)[b].conversation(),
    decreases n,
{
    if is_latest(t, n - 1) {
        if a == 0 {
            lemma_latest_from(t, n - 1, b - 1);
            let i = choose|i: int|
                0 <= i < n - 1 && #[trigger] is_latest(t, i) && latest(t, n - 1)[b - 1] == t[i];
            assert(t[n - 1].conversation() != t[i].conversation());
        } else {
            law_conversation_is_summed_up_once(t, n - 1, a - 1, b - 1);
        }
    } else {
        law_conversation_is_summed_up_once(t, n - 1, a, b);
    }
}

/// A page holds as many records as were asked for, or all if there are fewer, and they
/// are the last ones; the first so many are the first ones.
pub proof fn law_page_is_cut_off<A>(t: Seq<A>, n: int, i: int)
    requires
        0 <= n,
    ensures
        last_of(t, n).len() == (if n < t.len() {
            n
        } else {
            t.len() as int
        }),
        0 <= i < last_of(t, n).len() ==> last_of(t, n)[last_of(t, n).len() - 1 - i] == t[t.len() - 1
            - i],
        first_of(t, n).len() == last_of(t, n).len(),
        0 <= i < first_of(t, n).len() ==> first_of(t, n)[i] == t[i],
{
}

/// A peer that is seen again is kept with its nickname, its protocol, its group and the
/// time as they are now; the address is the one that is given, or the one that was
/// known where none is given.
pub proof fn law_peer_is_kept_as_it_is_now(known: Map<Seq<char>, KnownRow>, p: KnownRow)
    ensures
        ({
            let kept = seen_again(known, p);
            &&& kept.fingerprint == p.fingerprint
            &&& kept.nickname == p.nickname
            &&& kept.protocol == p.protocol
            &&& kept.last_seen_ms == p.last_seen_ms
            &&& kept.group == p.group
            &&& p.last_addr is Some ==> kept.last_addr == p.last_addr
            &&& p.last_addr is None && !known.dom().contains(p.fingerprint) ==> kept.last_addr
                is None
        }),
{
}

/// A group that is kept for the first time is kept as it is, with its creator and the
/// time that is given.
pub proof fn law_new_group_is_kept_as_it_is(
    kept: Map<Seq<char>, KeptRow>,
    g: groups::GroupRow,
    created_ts: i64,
)
    requires
        !kept.dom().contains(g.group_id),
    ensures
        kept_again(kept, g, created_ts).group == g,
        kept_again(kept, g, created_ts).created_ts == created_ts,
{
}

/// Of the groups of a database file, the last one under an id is kept, as it stands
/// there; no other is.
pub proof fn law_reopening_keeps_the_groups(given: Seq<KeptRow>, i: int, id: Seq<char>)
    ensures
        0 <= i < given.len() && (forall|k: int|
            i < k < given.len() ==> (#[trigger] given[k]).group.group_id
                != given[i].group.group_id) ==> groups_of(given).dom().contains(
            given[i].group.group_id,
        ) && groups_of(given)[given[i].group.group_id] == given[i],
        groups_of(given).dom().contains(id) ==> exists|k: int|
            0 <= k < given.len() && (#[trigger] given[k]).group.group_id == id,
    decreases given.len(),
{
    if given.len() > 0 {
        let t = given.drop_last();
        law_reopening_keeps_the_groups(t, i, id);
        if groups_of(t).dom().contains(id) {
            let k = choose|k: int| 0 <= k < t.len() && (#[trigger] t[k]).group.group_id == id;
            assert(given[k] == t[k]);
        }
        assert(given[given.len() - 1] == given.last());
        if 0 <= i < t.len() {
            assert(t[i] == given[i]);
            assert(forall|k: int| 0 <= k < t.len() ==> #[trigger] t[k] == given[k]);
        }
    }
}

/// The order of records goes by time first. Where times are equal it goes by id, and of a
/// message and a file with the same id the message comes first.
pub proof fn law_records_are_ordered_by_time(a: ItemRow, b: ItemRow)
    ensures
        a.ts() < b.ts() ==> item_before(a, b) && !item_before(b, a),
        a.ts() == b.ts() && text::text_less(a.id_of(), b.id_of()) ==> item_before(a, b)
            && !item_before(b, a),
        a.ts() == b.ts() && a.id_of() == b.id_of() && a is Text && b is File ==> item_before(a, b)
            && !item_before(b, a),
{
    lemma_item_order(a, b, b);
    text::lemma_text_order(a.id_of(), b.id_of(), b.id_of());
}

/// Known peers are listed with those that were seen later before those that were seen
/// earlier.
pub proof fn law_recently_seen_comes_first(
    known: Map<Seq<char>, KnownRow>,
    list: Seq<KnownRow>,
    i: int,
    j: int,
)
    requires
        is_known_listing(known, list),
        0 <= i < j < list.len(),
    ensures
        list[i].last_seen_ms >= list[j].last_seen_ms,
        list[i].fingerprint != list[j].fingerprint,
{
    assert(known_before(list[i], list[j]));
    text::lemma_text_order(list[i].fingerprint, list[j].fingerprint, list[j].fingerprint);
    assert(list.contains(list[i]));
    assert(list.contains(list[j]));
}

/// A row of the database is read as what was written: a message with its text, or a file with
/// its name, its size and its state, each with its conversation, its direction and its time.
pub proof fn law_row_is_read_as_written(row: JoinedRow)
    ensures
        item_in(row).id_of() == row.id@,
        item_in(row).conversation() == row.peer_fp@,
        item_in(row).ts() == row.ts_ms,
        row.kind@ == "text"@ ==> (item_in(row) matches ItemRow::Text {
            direction,
            body,
            sender_fp,
            ..
        } && direction == row.direction@ && body == row.content@ && (row.sender_fp matches Some(f)
            ==> sender_fp == Some(f@)) && (row.sender_fp is None ==> sender_fp is None)),
        row.kind@ != "text"@ ==> (item_in(row) matches ItemRow::File {
            direction,
            name,
            size,
            is_dir,
            status,
            path,
            ..
        } && direction == row.direction@ && name == row.content@ && size == row.size && (is_dir
            <==> row.is_dir != 0) && (row.status matches Some(t) ==> status == t@) && (
        row.path matches Some(q) ==> path == Some(q@)) && (row.path is None ==> path is None)),
{
}

/// A search brings no more than was asked for, and of all that is found the first, which are the
/// latest.
pub proof fn law_search_is_cut_off(
    hits: Vec<SearchHit>,
    t: Seq<ItemRow>,
    query: Seq<char>,
    limit: u32,
    i: int,
)
    requires
        is_search_result(Ok(hits), t, query, limit),
    ensures
        ({
            let all = found(t, t.len() as int, query);
            &&& hits@.len() == (if all.len() < limit {
                all.len()
            } else {
                limit as nat
            })
            &&& 0 <= i < hits@.len() ==> hits@[i]@ == hit_of(all[i])
        }),
{
    let all = found(t, t.len() as int, query);
    let shown = hits@.map_values(|h: SearchHit| h@);
    assert(shown == hits_of(first_of(all, limit as int)));
    if 0 <= i < hits@.len() {
        assert(shown[i] == hits@[i]@);
        assert(hits_of(first_of(all, limit as int))[i] == hit_of(all[i]));
    }
}

/// In the pattern for a query each character stands for itself: one that would stand for more
/// has a backslash before it, any other stands alone.
pub proof fn law_pattern_stands_for_the_query(a: Seq<char>, b: Seq<char>, c: char)
    ensures
        escaped_query(a + b) == escaped_query(a) + escaped_query(b),
        c == '%' || c == '_' || c == '\\' ==> escaped_query(seq![c]) == seq!['\\', c],
        c != '%' && c != '_' && c != '\\' ==> escaped_query(seq![c]) == seq![c],
    decreases b.len(),
{
    let one = seq![c];
    assert(one.drop_last() =~= Seq::<char>::empty());
    assert(escaped_query(one.drop_last()) =~= Seq::<char>::empty());
    assert(one.last() == c);
    if b.len() == 0 {
        assert(a + b =~= a);
        assert(escaped_query(a) + escaped_query(b) =~= escaped_query(a));
    } else {
        law_pattern_stands_for_the_query(a, b.drop_last(), c);
        assert((a + b).drop_last() =~= a + b.drop_last());
        assert((a + b).last() == b.last());
        assert(escaped_query(a + b) =~= escaped_query(a) + escaped_query(b));
    }
}

/// A query that ends in a zero character looks for what has to stand at the end of a text.
pub proof fn law_query_with_a_zero_looks_at_the_end(
    x: ItemRow,
    query: Seq<char>,
    rest: Seq<char>,
)
    requires
        is_plain_text(query),
        is_plain_text(x.snippet()),
    ensures
        matches_query(x, query + seq!['\u{0}'] + rest) <==> text::has_suffix(
            text::lower_text(x.snippet()),
            text::lower_text(query),
        ),
{
    let all = query + seq!['\u{0}'] + rest;
    lemma_plain_search_text(query);
    lemma_plain_search_text(x.snippet());
    let n = query.len() as int;
    assert(all[n] == '\u{0}');
    assert(all.contains('\u{0}'));
    assert forall|j: int| 0 <= j < n implies all[j] != '\u{0}' by {
        assert(all[j] == query[j]);
    }
    text::lemma_index_of_is(all, '\u{0}', n);
    assert(all.take(n) =~= query);
    assert(search_text(all) =~= text::lower_text(query));
}

} // verus!
