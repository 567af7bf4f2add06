use bigpaw::addr::Ipv4Addr;
use bigpaw::discovery::announce::{AnnounceError, HistoryStore};
use bigpaw::hub::{Core, CoreConfig, CoreError};
use bigpaw::identity::IdentityError;
use bigpaw::ipmsg::discovery::IpmsgError;
use bigpaw::moment::Instant;
use bigpaw::net_ifaces::{IfAddr, Interface};
use bigpaw::net_scope::NetScope;
use bigpaw::settings::{load, Settings};
use bigpaw::shell::{
    channel, default_download_dir, get_history, get_history_around, list_network_interfaces, ping,
    search_history, set_settings, validate_allowed_networks, SettingsStep,
};
use bigpaw::storage::{Storage, StorageError};
use bigpaw::transport::control::Frame;
use bigpaw::transport::manager::{SentText, TransportError, TransportEvent};
use bigpaw::PROTOCOL_VERSION;

fn core_with(excluded: &[&str]) -> Core {
    let s = Settings {
        excluded_interfaces: excluded.iter().map(|n| n.to_string()).collect(),
        ..Settings::default()
    };
    let cfg = CoreConfig { data_dir: "/data".to_string(), nickname: None };
    let history = HistoryStore::load(vec![]);
    let now = Instant { nanos: 0 };
    Core::start(&cfg, &s, "host", "me", Storage::open(vec![], vec![], vec![]), history, vec![], &[], false, now)
}

fn lines(v: &[&str]) -> Vec<String> {
    v.iter().map(|s| s.to_string()).collect()
}

#[test]
fn protocol_version_is_one() {
    assert_eq!(PROTOCOL_VERSION, 1);
    assert_eq!(ping(), "pong v1");
}

#[test]
fn notify_fields_default_to_on() {
    let s = Settings::default();
    assert!(s.notify_enabled);
    assert!(s.notify_sound);
    assert!(s.notify_show_preview);
    assert!(s.muted_conversations.is_empty());
}

#[test]
fn load_missing_file_returns_default() {
    let s = load(None);
    assert_eq!(s, Settings::default());
    assert!(s.ipmsg_enabled);
}

#[test]
fn save_then_load_roundtrip() {
    let s = Settings {
        nickname: Some("大脚猫".to_string()),
        group: None,
        download_dir: Some("/tmp/dl".to_string()),
        ipmsg_enabled: false,
        excluded_interfaces: Vec::new(),
        allowed_networks: Vec::new(),
        notify_enabled: false,
        notify_sound: false,
        notify_show_preview: false,
        muted_conversations: vec!["abc123".to_string()],
    };
    assert_eq!(load(Some(s.clone())), s);
}

#[test]
fn every_event_for_the_front_end_has_a_channel() {
    let id = || "x".to_string();
    let done = TransportEvent::FileDone { xfer_id: id(), path: id() };
    assert_eq!(channel(&done), Some("file://done"));
    let failed = TransportEvent::FileFailed { xfer_id: id(), reason: id() };
    assert_eq!(channel(&failed), Some("file://failed"));
    let progress = TransportEvent::FileProgress { xfer_id: id(), done: 1, total: 2 };
    assert_eq!(channel(&progress), Some("file://progress"));
    assert_eq!(channel(&TransportEvent::GroupsChanged(vec![])), Some("group://updated"));
    let frame = Frame::Group { kind: 7, payload: vec![] };
    assert_eq!(channel(&TransportEvent::Group { from_fp: id(), msg: frame }), None);
}

#[test]
fn downloads_go_where_the_user_says() {
    let mut s = Settings::default();
    assert_eq!(default_download_dir(&s, None, None), "");
    assert_eq!(default_download_dir(&s, None, Some("/home/me")), "/home/me");
    assert_eq!(default_download_dir(&s, Some("/home/me/dl"), Some("/home/me")), "/home/me/dl");
    s.download_dir = Some("/mine".to_string());
    assert_eq!(default_download_dir(&s, Some("/home/me/dl"), Some("/home/me")), "/mine");
}

#[test]
fn pages_of_history() {
    let mut core = core_with(&[]);
    for i in 0..60u64 {
        core.text_sent("bbbb", "hello", &SentText { id: format!("m{i:02}"), ts_ms: i });
    }
    assert_eq!(get_history(&core, "bbbb", None, Some("ignored"), None).len(), 50);
    let page = get_history(&core, "bbbb", Some(10), None, Some(3));
    let times: Vec<i64> = page.iter().map(|i| i.ts_ms()).collect();
    assert_eq!(times, vec![7, 8, 9]);
    let page = get_history(&core, "bbbb", Some(10), Some("z"), Some(1));
    assert_eq!(page[0].ts_ms(), 10);
    let around = get_history_around(&core, "bbbb", 30);
    assert_eq!(around.len(), 51);
    assert_eq!((around[0].ts_ms(), around[50].ts_ms()), (5, 55));
    assert_eq!(search_history(&core, "HELL").unwrap().len(), 60);
}

#[test]
fn allowed_networks_are_checked_and_written_out() {
    assert_eq!(
        validate_allowed_networks(&lines(&[" 10.0.0.99/24 ", "", "10.1.0.1 - 10.1.0.9"])),
        Ok(lines(&["10.0.0.0/24", "10.1.0.1-10.1.0.9"]))
    );
    assert_eq!(
        validate_allowed_networks(&lines(&["10.0.0.1", "", "bad"])),
        Err("第 3 行:格式无法识别 `bad`".to_string())
    );
    let many: Vec<String> = (0..257).map(|i| format!("10.0.{}.1", i % 250)).collect();
    assert_eq!(validate_allowed_networks(&many), Err("条目过多(257 > 256)".to_string()));
    let written = validate_allowed_networks(&lines(&["10.0.0.99/24"])).unwrap();
    assert_eq!(NetScope::parse(&written), NetScope::parse(&lines(&["10.0.0.99/24"])));
}

#[test]
fn settings_are_checked_then_saved_then_applied() {
    let mut s = Settings::default();
    assert_eq!(set_settings(&s, None), SettingsStep::Save);
    assert_eq!(set_settings(&s, Some(Ok(()))), SettingsStep::Apply);
    assert_eq!(
        set_settings(&s, Some(Err("disk full".to_string()))),
        SettingsStep::Refuse("disk full".to_string())
    );
    s.allowed_networks = lines(&["300.1.1.1"]);
    let refused = SettingsStep::Refuse("第 1 行:无法解析 IPv4 地址 `300.1.1.1`".to_string());
    assert_eq!(set_settings(&s, None), refused);
    assert_eq!(set_settings(&s, Some(Ok(()))), refused);
}

#[test]
fn interfaces_are_listed_with_their_addresses_in_text() {
    let core = core_with(&["utun0"]);
    let iface = |name: &str, last: u8| Interface {
        name: name.to_string(),
        addr: IfAddr::V4 {
            ip: Ipv4Addr::new(192, 168, 1, last),
            netmask: Ipv4Addr::new(255, 255, 255, 0),
            broadcast: None,
        },
    };
    let list = list_network_interfaces(&core, &[iface("utun0", 9), iface("en0", 8)]);
    assert_eq!(list.len(), 2);
    assert_eq!((list[0].name.as_str(), list[0].ip.as_str()), ("en0", "192.168.1.8"));
    assert_eq!(list[0].netmask, "255.255.255.0");
    assert_eq!((list[0].is_virtual, list[0].excluded), (false, false));
    assert_eq!((list[1].is_virtual, list[1].excluded), (true, true));
}

#[test]
fn errors_are_told_with_their_origin() {
    let s = || "x".to_string();
    assert_eq!(CoreError::Identity(IdentityError::Io(s())).to_text(), "identity: io: x");
    assert_eq!(CoreError::Mdns(s()).to_text(), "mdns: x");
    assert_eq!(CoreError::Announce(AnnounceError::Io(s())).to_text(), "announce: io: x");
    assert_eq!(CoreError::Transport(TransportError::Io(s())).to_text(), "transport: io: x");
    assert_eq!(CoreError::Ipmsg(IpmsgError::Io(s())).to_text(), "ipmsg: io: x");
    assert_eq!(CoreError::UnknownPeer.to_text(), "对端不在线或未知");
    assert_eq!(CoreError::Storage(StorageError::Sqlite(s())).to_text(), "storage: sqlite: x");
    assert_eq!(
        CoreError::IpmsgUnavailable.to_text(),
        "IPMsg 兼容层未启用(2425 端口被占用,可能本机在跑飞秋)"
    );
}
