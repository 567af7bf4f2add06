use bigpaw::moment::Instant;
use bigpaw::notify::{decide, DecideInput, Decision, NOTIFY_THROTTLE};
use bigpaw::settings::Settings;

const START: Instant = Instant { nanos: 7_000_000_000 };

fn after(t: Instant, nanos: u64) -> Instant {
    Instant { nanos: t.nanos + nanos }
}

fn settings() -> Settings {
    Settings::default()
}

/// The window is hidden, and nothing was notified of yet.
fn input<'a>(conv_id: &'a str, s: &'a Settings, now: Instant) -> DecideInput<'a> {
    DecideInput {
        conv_id,
        settings: s,
        window_focused: false,
        active_conv: None,
        last_notify: None,
        now,
    }
}

#[test]
fn muted_conversation_is_fully_silent() {
    let mut s = settings();
    s.muted_conversations = vec!["abc".to_string()];
    let d = decide(input("abc", &s, START));
    assert_eq!(d, Decision { notify: false, mark_unread: false });
}

#[test]
fn mute_wins_over_everything_else() {
    let mut s = settings();
    s.muted_conversations = vec!["abc".to_string()];
    let mut i = input("abc", &s, START);
    i.window_focused = false;
    assert_eq!(decide(i), Decision { notify: false, mark_unread: false });
}

#[test]
fn watching_this_conversation_suppresses_everything() {
    let s = settings();
    let now = START;
    let mut i = input("abc", &s, now);
    i.window_focused = true;
    i.active_conv = Some("abc");
    assert_eq!(decide(i), Decision { notify: false, mark_unread: false });
}

#[test]
fn watching_wins_over_global_switch_off() {
    let mut s = settings();
    s.notify_enabled = false;
    let now = START;
    let mut i = input("abc", &s, now);
    i.window_focused = true;
    i.active_conv = Some("abc");
    assert_eq!(decide(i), Decision { notify: false, mark_unread: false });
}

#[test]
fn global_switch_off_still_marks_unread() {
    let mut s = settings();
    s.notify_enabled = false;
    assert_eq!(
        decide(input("abc", &s, START)),
        Decision { notify: false, mark_unread: true }
    );
}

#[test]
fn focused_but_other_conversation_still_notifies() {
    let s = settings();
    let now = START;
    let mut i = input("abc", &s, now);
    i.window_focused = true;
    i.active_conv = Some("xyz");
    assert_eq!(decide(i), Decision { notify: true, mark_unread: true });
}

#[test]
fn hidden_window_notifies_even_for_active_conversation() {
    let s = settings();
    let now = START;
    let mut i = input("abc", &s, now);
    i.window_focused = false;
    i.active_conv = Some("abc");
    assert_eq!(decide(i), Decision { notify: true, mark_unread: true });
}

#[test]
fn throttled_within_window_marks_unread_only() {
    let s = settings();
    let last = START;
    let now = after(last, 1_000_000_000);
    let mut i = input("abc", &s, now);
    i.last_notify = Some(last);
    assert_eq!(decide(i), Decision { notify: false, mark_unread: true });
}

#[test]
fn notifies_again_after_throttle_window() {
    let s = settings();
    let last = START;
    let now = after(last, NOTIFY_THROTTLE + 1_000_000);
    let mut i = input("abc", &s, now);
    i.last_notify = Some(last);
    assert_eq!(decide(i), Decision { notify: true, mark_unread: true });
}

#[test]
fn throttle_ends_with_the_window() {
    let s = settings();
    let mut i = input("abc", &s, after(START, NOTIFY_THROTTLE - 1));
    i.last_notify = Some(START);
    assert!(!decide(i).notify);
    i.now = after(START, NOTIFY_THROTTLE);
    assert!(decide(i).notify);
}
