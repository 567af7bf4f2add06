use bigpaw::groups::{Group, GroupMember};
use bigpaw::storage::{
    is_final_status, migrate, row_to_item, HistoryItem, JoinedRow, KeptGroup, KnownPeer, Storage,
    StorageError, SCHEMA_VERSION,
};

fn mem() -> Storage {
    Storage::open(vec![], vec![], vec![])
}

/// Where the page before a record ends.
fn cursor(it: &HistoryItem) -> (i64, String) {
    match it {
        HistoryItem::Text { id, ts_ms, .. } => (*ts_ms, id.clone()),
        HistoryItem::File { xfer_id, ts_ms, .. } => (*ts_ms, xfer_id.clone()),
    }
}

#[test]
fn insert_and_read_message() {
    let mut s = mem();
    s.insert_message("m1", "peerA", "in", "你好", 1000, None);
    s.insert_message("m2", "peerA", "out", "hi", 2000, None);
    let items = s.history("peerA", None, 50);
    assert_eq!(items.len(), 2);
    match &items[0] {
        HistoryItem::Text { body, ts_ms, .. } => {
            assert_eq!(body, "你好");
            assert_eq!(*ts_ms, 1000);
        }
        other => panic!("{other:?}"),
    }
}

#[test]
fn insert_message_id_conflict_is_idempotent() {
    let mut s = mem();
    s.insert_message("m1", "peerA", "in", "a", 1, None);
    s.insert_message("m1", "peerA", "in", "a", 1, None);
    assert_eq!(s.history("peerA", None, 50).len(), 1);
}

#[test]
fn transfer_insert_update_and_merged_history() {
    let mut s = mem();
    s.insert_message("m1", "peerA", "in", "先发一句", 1000, None);
    s.insert_transfer("x1", "peerA", "in", "a.zip", 2048, false, "offered", 1500);
    s.update_transfer("x1", "done", Some("/tmp/a.zip".to_string()));
    s.insert_message("m2", "peerA", "out", "收到了吗", 2000, None);

    let items = s.history("peerA", None, 50);
    assert_eq!(items.len(), 3);
    assert_eq!(
        items.iter().map(HistoryItem::ts_ms).collect::<Vec<_>>(),
        vec![1000, 1500, 2000]
    );
    match &items[1] {
        HistoryItem::File { status, path, .. } => {
            assert_eq!(status, "done");
            assert_eq!(path.as_deref(), Some("/tmp/a.zip"));
        }
        other => panic!("{other:?}"),
    }
}

#[test]
fn history_cursor_pagination() {
    let mut s = mem();
    for i in 0..10 {
        s.insert_message(&format!("m{i}"), "peerA", "in", "x", i * 100, None);
    }
    let page1 = s.history("peerA", None, 4);
    assert_eq!(
        page1.iter().map(HistoryItem::ts_ms).collect::<Vec<_>>(),
        vec![600, 700, 800, 900]
    );
    let (t, id) = cursor(&page1[0]);
    let page2 = s.history("peerA", Some((t, &id)), 4);
    assert_eq!(
        page2.iter().map(HistoryItem::ts_ms).collect::<Vec<_>>(),
        vec![200, 300, 400, 500]
    );
}

#[test]
fn history_cursor_survives_same_timestamp_boundary() {
    let mut s = mem();
    for i in 0..5 {
        s.insert_message(&format!("m{i}"), "peerA", "in", "x", 1000, None);
    }
    s.insert_message("m_old", "peerA", "in", "old", 500, None);
    let page1 = s.history("peerA", None, 3);
    assert_eq!(page1.len(), 3);
    let cursor = |items: &[HistoryItem]| match &items[0] {
        HistoryItem::Text { id, ts_ms, .. } => (*ts_ms, id.clone()),
        HistoryItem::File { xfer_id, ts_ms, .. } => (*ts_ms, xfer_id.clone()),
    };
    let (t1, i1) = cursor(&page1);
    let page2 = s.history("peerA", Some((t1, &i1)), 3);
    let (t2, i2) = cursor(&page2);
    let page3 = s.history("peerA", Some((t2, &i2)), 3);
    let mut all: Vec<String> = [page1, page2, page3]
        .concat()
        .iter()
        .map(|it| match it {
            HistoryItem::Text { id, .. } => id.clone(),
            HistoryItem::File { xfer_id, .. } => xfer_id.clone(),
        })
        .collect();
    all.sort();
    all.dedup();
    assert_eq!(all.len(), 6);
}

#[test]
fn history_isolates_peers() {
    let mut s = mem();
    s.insert_message("m1", "peerA", "in", "a", 1, None);
    s.insert_message("m2", "peerB", "in", "b", 2, None);
    assert_eq!(s.history("peerA", None, 50).len(), 1);
}

#[test]
fn history_around_returns_context_window() {
    let mut s = mem();
    for i in 0..20 {
        s.insert_message(&format!("m{i}"), "peerA", "in", "x", i * 100, None);
    }
    let items = s.history_around("peerA", 1000, 3);
    assert_eq!(
        items.iter().map(HistoryItem::ts_ms).collect::<Vec<_>>(),
        vec![700, 800, 900, 1000, 1100, 1200, 1300]
    );
}

#[test]
fn search_covers_message_body_and_file_name() {
    let mut s = mem();
    s.insert_message("m1", "peerA", "in", "明天开会记得带电脑", 1000, None);
    s.insert_message("m2", "peerB", "out", "好的", 2000, None);
    s.insert_transfer("x1", "peerB", "in", "会议纪要.docx", 10, false, "done", 3000);
    let hits = s.search("会", 50).unwrap();
    assert_eq!(hits.len(), 2);
    assert_eq!(hits[0].ts_ms, 3000);
    assert_eq!(hits[0].kind, "file");
    assert_eq!(hits[1].peer_fp, "peerA");
}

#[test]
fn search_escapes_like_wildcards() {
    let mut s = mem();
    s.insert_message("m1", "peerA", "in", "百分号%字面量", 1000, None);
    s.insert_message("m2", "peerA", "in", "别的", 2000, None);
    let hits = s.search("%", 50).unwrap();
    assert_eq!(hits.len(), 1);
}

#[test]
fn clear_history_single_peer_and_all() {
    let mut s = mem();
    s.insert_message("m1", "peerA", "in", "a", 1, None);
    s.insert_transfer("x1", "peerA", "in", "f", 1, false, "done", 2);
    s.insert_message("m2", "peerB", "in", "b", 3, None);

    s.clear_history(Some("peerA"));
    assert!(s.history("peerA", None, 50).is_empty());
    assert_eq!(s.history("peerB", None, 50).len(), 1);

    s.clear_history(None);
    assert!(s.history("peerB", None, 50).is_empty());
}

#[test]
fn conversation_summaries_returns_last_item_per_peer() {
    let mut s = mem();
    s.insert_message("m1", "peerA", "in", "第一条", 100, None);
    s.insert_message("m2", "peerA", "out", "A 的最后一条", 300, None);
    s.insert_transfer("x1", "peerB", "in", "报告.pdf", 10, false, "done", 500);
    s.insert_message("m3", "peerB", "in", "早于文件", 400, None);
    let sums = s.conversation_summaries();
    assert_eq!(sums.len(), 2);
    assert_eq!(sums[0].peer_fp, "peerB");
    assert_eq!(sums[0].snippet, "报告.pdf");
    assert_eq!(sums[0].kind, "file");
    assert_eq!(sums[0].ts_ms, 500);
    assert_eq!(sums[1].peer_fp, "peerA");
    assert_eq!(sums[1].snippet, "A 的最后一条");
    assert_eq!(sums[1].kind, "text");
}

#[test]
fn conversation_summaries_empty_db_is_empty() {
    assert!(mem().conversation_summaries().is_empty());
}

#[test]
fn groups_table_roundtrip_and_history_isolation() {
    let mut s = mem();
    let g = Group {
        group_id: "gid-1".to_string(),
        name: "猫猫群".to_string(),
        creator_fp: "me".to_string(),
        version: 1,
        members: vec![
            GroupMember { fp: "me".to_string(), nick: "我".to_string() },
            GroupMember { fp: "b".to_string(), nick: "乙".to_string() },
        ],
    };
    s.upsert_group(&g, 100);
    let loaded = s.load_groups();
    assert_eq!(loaded.len(), 1);
    assert_eq!(loaded[0], g);

    let mut g2 = g.clone();
    g2.version = 2;
    g2.members.pop();
    s.upsert_group(&g2, 100);
    assert_eq!(s.load_groups()[0].version, 2);
    assert_eq!(s.load_groups()[0].members.len(), 1);

    s.insert_message("m1", "gid-1", "in", "群里的话", 200, Some("b".to_string()));
    s.insert_message("m2", "b", "in", "私聊的话", 300, None);
    let group_hist = s.history("gid-1", None, 10);
    assert_eq!(group_hist.len(), 1);
    match &group_hist[0] {
        HistoryItem::Text { sender_fp, body, .. } => {
            assert_eq!(sender_fp.as_deref(), Some("b"));
            assert_eq!(body, "群里的话");
        }
        other => panic!("{other:?}"),
    }
    assert_eq!(s.history("b", None, 10).len(), 1);

    s.delete_group("gid-1");
    assert!(s.load_groups().is_empty());
}

#[test]
fn update_transfer_never_regresses_terminal_status() {
    let mut s = mem();
    s.insert_transfer("x1", "peerA", "in", "a.zip", 10, false, "offered", 100);
    s.update_transfer("x1", "done", Some("/tmp/a.zip".to_string()));
    s.update_transfer("x1", "active", None);
    match &s.history("peerA", None, 10)[0] {
        HistoryItem::File { status, path, .. } => {
            assert_eq!(status, "done");
            assert_eq!(path.as_deref(), Some("/tmp/a.zip"));
        }
        other => panic!("{other:?}"),
    }
}

fn peer(fp: &str, nick: &str, protocol: &str, addr: Option<&str>, group: Option<&str>, ts: i64) -> KnownPeer {
    KnownPeer {
        fingerprint: fp.to_string(),
        nickname: nick.to_string(),
        protocol: protocol.to_string(),
        last_addr: addr.map(|a| a.to_string()),
        last_seen_ms: ts,
        group: group.map(|g| g.to_string()),
    }
}

#[test]
fn upsert_peer_and_known_peers() {
    let mut s = mem();
    s.upsert_peer(peer("fpA", "alice", "native", Some("192.168.1.5"), None, 1000));
    s.upsert_peer(peer("fpA", "alice-renamed", "native", Some("192.168.1.6"), None, 2000));
    s.upsert_peer(peer("fpA", "alice-renamed", "native", None, None, 3000));
    s.upsert_peer(peer("ipmsg:k", "bob-feiq", "ipmsg", None, None, 1500));
    let peers = s.known_peers();
    assert_eq!(peers.len(), 2);
    let a = peers.iter().find(|p| p.fingerprint == "fpA").unwrap();
    assert_eq!(a.nickname, "alice-renamed");
    assert_eq!(a.last_addr.as_deref(), Some("192.168.1.6"));
    assert_eq!(a.last_seen_ms, 3000);
}

#[test]
fn peers_table_persists_group() {
    let mut s = mem();
    s.upsert_peer(peer("fpA", "alice", "native", Some("192.168.1.5"), Some("研发部"), 1000));
    s.upsert_peer(peer("fpB", "bob", "ipmsg", None, None, 2000));
    let peers = s.known_peers();
    let a = peers.iter().find(|p| p.fingerprint == "fpA").unwrap();
    assert_eq!(a.group, Some("研发部".to_string()));
    let b = peers.iter().find(|p| p.fingerprint == "fpB").unwrap();
    assert_eq!(b.group, None);
    let s2 = Storage::open(vec![], s.known_peers(), vec![]);
    assert_eq!(s2.known_peers().len(), 2);
    assert_eq!(s2.known_peers(), s.known_peers());
}

#[test]
fn migrates_v1_db_in_place() {
    assert_eq!(migrate(1), vec![2, 3]);
    let old = peer("fpOld", "old-nick", "native", None, None, 42);
    let mut s = Storage::open(vec![], vec![old], vec![]);
    let peers = s.known_peers();
    assert_eq!(peers.len(), 1);
    assert_eq!(peers[0].group, None);
    s.upsert_peer(peer("fpOld", "old-nick", "native", None, Some("市场部"), 100));
    assert_eq!(s.known_peers()[0].group, Some("市场部".to_string()));
}

fn joined_row(kind: &str, status: Option<&str>) -> JoinedRow {
    JoinedRow {
        kind: kind.to_string(),
        id: "old-m".to_string(),
        peer_fp: "peerX".to_string(),
        direction: "in".to_string(),
        content: "旧消息".to_string(),
        status: status.map(|s| s.to_string()),
        size: 7,
        is_dir: 1,
        path: None,
        ts_ms: 42,
        sender_fp: None,
    }
}

#[test]
fn migrates_v2_db_in_place() {
    assert_eq!(migrate(2), vec![3]);
    let s = Storage::open(vec![joined_row("text", None)], vec![], vec![]);
    match &s.history("peerX", None, 10)[0] {
        HistoryItem::Text { sender_fp, .. } => assert_eq!(*sender_fp, None),
        other => panic!("{other:?}"),
    }
    assert!(s.load_groups().is_empty());
}

#[test]
fn open_creates_db_and_migrates() {
    assert_eq!(migrate(0), vec![1, 2, 3]);
    assert!(migrate(SCHEMA_VERSION).is_empty());
}

#[test]
fn opening_keeps_every_row_of_the_file() {
    let group = Group {
        group_id: "gid-1".to_string(),
        name: "g".to_string(),
        creator_fp: "me".to_string(),
        version: 4,
        members: vec![GroupMember { fp: "me".to_string(), nick: "m".to_string() }],
    };
    let s = Storage::open(
        vec![joined_row("text", None), joined_row("file", Some("done"))],
        vec![peer("fpA", "alice", "native", Some("192.168.1.5"), None, 7)],
        vec![KeptGroup { group: group.clone(), created_ts: 9 }],
    );
    assert_eq!(s.message("old-m"), Some(row_to_item(joined_row("text", None))));
    assert_eq!(s.transfer("old-m"), Some(row_to_item(joined_row("file", Some("done")))));
    assert_eq!(s.history("peerX", None, 10).len(), 2);
    assert_eq!(s.known_peer("fpA").unwrap().last_addr.as_deref(), Some("192.168.1.5"));
    assert_eq!(s.kept_group("gid-1"), Some(KeptGroup { group: group.clone(), created_ts: 9 }));
    assert_eq!(s.kept_group("gid-2"), None);
    assert_eq!(s.load_groups(), vec![group]);
}

#[test]
fn a_group_keeps_its_creator_and_its_time() {
    let mut s = mem();
    let first = Group {
        group_id: "gid-1".to_string(),
        name: "g".to_string(),
        creator_fp: "me".to_string(),
        version: 1,
        members: vec![],
    };
    let second = Group {
        name: "h".to_string(),
        creator_fp: "you".to_string(),
        version: 2,
        ..first.clone()
    };
    s.upsert_group(&first, 100);
    s.upsert_group(&second, 200);
    let kept = s.kept_group("gid-1").unwrap();
    assert_eq!(kept.created_ts, 100);
    assert_eq!(kept.group, Group { creator_fp: "me".to_string(), ..second });
}

#[test]
fn a_row_is_a_message_or_a_file() {
    match row_to_item(joined_row("file", Some("done"))) {
        HistoryItem::File { name, size, is_dir, status, .. } => {
            assert_eq!((name.as_str(), size, is_dir, status.as_str()), ("旧消息", 7, true, "done"));
        }
        other => panic!("{other:?}"),
    }
    let text = row_to_item(joined_row("text", None));
    assert_eq!((text.id(), text.kind(), text.snippet()), ("old-m", "text", "旧消息"));
    assert_eq!(text.conversation(), "peerX");
    assert_eq!(text.copied(), text);
}

#[test]
fn final_states_and_errors() {
    for status in ["done", "failed", "rejected"] {
        assert!(is_final_status(status));
    }
    for status in ["offered", "active", ""] {
        assert!(!is_final_status(status));
    }
    assert_eq!(StorageError::Sqlite("full".to_string()).to_text(), "sqlite: full");
}

#[test]
fn search_ignores_the_case_of_ascii_letters() {
    let mut s = mem();
    s.insert_message("m1", "peerA", "in", "Hello World", 1000, None);
    assert_eq!(s.search("hELLO", 50).unwrap().len(), 1);
    assert_eq!(s.search("world", 0).unwrap().len(), 0);
    assert_eq!(s.search("", 50).unwrap().len(), 1);
}

#[test]
fn a_message_and_a_file_may_share_an_id() {
    let mut s = mem();
    s.insert_message("x", "peerA", "in", "text", 1000, None);
    s.insert_transfer("x", "peerA", "in", "file", 1, false, "offered", 1000);
    assert_eq!(s.history("peerA", None, 50).len(), 2);
}

#[test]
fn a_record_is_found_by_its_id() {
    let mut s = mem();
    s.insert_message("x", "peerA", "in", "text", 1000, None);
    s.insert_transfer("x", "peerA", "in", "file", 1, false, "offered", 1000);
    s.upsert_peer(peer("fpA", "alice", "native", None, None, 1));
    assert_eq!(s.message("x").unwrap().snippet(), "text");
    assert_eq!(s.transfer("x").unwrap().snippet(), "file");
    assert_eq!(s.message("y"), None);
    assert_eq!(s.transfer("y"), None);
    assert_eq!(s.known_peer("fpA").unwrap().nickname, "alice");
    assert_eq!(s.known_peer("fpB"), None);
}

#[test]
fn search_looks_no_further_than_a_zero() {
    let mut s = mem();
    s.insert_message("m1", "peerA", "in", "front\u{0}rear", 1, None);
    s.insert_message("m2", "peerA", "in", "up front it is", 2, None);
    s.insert_message("m3", "peerA", "in", "\u{FFFE}", 3, None);
    let found = |q: &str| -> Vec<i64> {
        s.search(q, 50).unwrap().iter().map(|h| h.ts_ms).collect()
    };
    assert_eq!(found("front"), vec![2, 1]);
    assert_eq!(found("rear"), Vec::<i64>::new());
    // A query with a zero stands at the end.
    assert_eq!(found("front\u{0}x"), vec![1]);
    assert_eq!(found("\u{0}"), vec![3, 2, 1]);
    assert_eq!(found("\u{FFFF}"), vec![3]);
    assert_eq!(found("\u{FFFD}"), vec![3]);
}

#[test]
fn too_long_a_query_is_refused() {
    let mut s = mem();
    let most = "a".repeat(49_998);
    let more = "a".repeat(49_999);
    let escaped = "%".repeat(25_000);
    assert_eq!(s.search(&more, 50), Ok(vec![]));
    s.insert_message("m1", "peerA", "in", "a", 1, None);
    assert_eq!(s.search(&most, 50), Ok(vec![]));
    assert_eq!(s.search(&more, 0), Ok(vec![]));
    let refused = Err(StorageError::Sqlite("LIKE or GLOB pattern too complex".to_string()));
    assert_eq!(s.search(&more, 50), refused);
    assert_eq!(s.search(&escaped, 50), refused);
}
