//! Whether an incoming message is worth a notification.

use crate::moment::Instant;
use crate::net_ifaces::holds_name;
use crate::settings::Settings;
use crate::text;
use crate::text::same_text;
use vstd::prelude::*;

verus! {

/// The least time between two notifications of one conversation, in nanoseconds.
pub const NOTIFY_THROTTLE: u64 = 5_000_000_000;

/// What to do about an incoming message.
#[derive(Debug, Clone, Copy, PartialEq, Eq, Structural)]
pub struct Decision {
    /// Show a notification.
    pub notify: bool,
    /// Mark the conversation as unread.
    pub mark_unread: bool,
}

/// What the decision depends on.
#[derive(Clone, Copy)]
pub struct DecideInput<'a> {
    pub conv_id: &'a str,
    pub settings: &'a Settings,
    pub window_focused: bool,
    pub active_conv: Option<&'a str>,
    /// When the conversation was last notified of.
    pub last_notify: Option<Instant>,
    pub now: Instant,
}

/// Whether the conversation is muted.
pub open spec fn is_muted(i: DecideInput<'_>) -> bool {
    text::texts(i.settings.muted_conversations@).contains(i.conv_id@)
}

/// Whether the user is looking at the conversation.
pub open spec fn is_watched(i: DecideInput<'_>) -> bool {
    i.window_focused && i.active_conv is Some && i.active_conv->Some_0@ == i.conv_id@
}

/// Whether the conversation was notified of too short a time ago.
pub open spec fn is_throttled(i: DecideInput<'_>) -> bool {
    i.last_notify is Some && i.now.elapsed_since(i.last_notify->Some_0) < NOTIFY_THROTTLE
}

/// What to do about an incoming message.
pub open spec fn decision_on(i: DecideInput<'_>) -> Decision {
    let mark_unread = !(is_muted(i) || is_watched(i));
    Decision {
        notify: mark_unread && i.settings.notify_enabled && !is_throttled(i),
        mark_unread,
    }
}

/// Decides what to do. A muted conversation is never marked, nor one that is
/// being looked at; otherwise the message is marked unread, and notified of
/// unless notifications are off or one was shown a short time ago.
pub fn decide(i: DecideInput<'_>) -> (r: Decision)
    ensures
        r == decision_on(i),
        r.mark_unread == !(is_muted(i) || is_watched(i)),
        r.notify == (r.mark_unread && i.settings.notify_enabled && !is_throttled(i)),
{
    if holds_name(&i.settings.muted_conversations, i.conv_id) {
        return Decision { notify: false, mark_unread: false };
    }
    if i.window_focused {
        if let Some(active) = i.active_conv {
            if same_text(active, i.conv_id) {
                return Decision { notify: false, mark_unread: false };
            }
        }
    }
    if !i.settings.notify_enabled {
        return Decision { notify: false, mark_unread: true };
    }
    if let Some(last) = i.last_notify {
        if i.now.since(last) < NOTIFY_THROTTLE {
            return Decision { notify: false, mark_unread: true };
        }
    }
    Decision { notify: true, mark_unread: true }
}

/// A conversation that is muted, or that the user is looking at, is neither marked nor
/// notified of, whatever else is set.
pub proof fn law_muted_or_watched_stays_quiet(i: DecideInput<'_>, k: int)
    requires
        (0 <= k < i.settings.muted_conversations@.len() && i.settings.muted_conversations@[k]@
            == i.conv_id@) || (i.window_focused && i.active_conv is Some && i.active_conv->Some_0@
            == i.conv_id@),
    ensures
        !decision_on(i).mark_unread,
        !decision_on(i).notify,
{
    if 0 <= k < i.settings.muted_conversations@.len() && i.settings.muted_conversations@[k]@
        == i.conv_id@ {
        assert(text::texts(i.settings.muted_conversations@)[k] == i.conv_id@);
    }
}

/// A message of any other conversation is always marked as unread, and is notified of
/// exactly if notifications are on and the last one of the conversation, if there was
/// one, is at least five seconds ago.
pub proof fn law_other_messages_are_noticed(i: DecideInput<'_>)
    requires
        forall|k: int|
            0 <= k < i.settings.muted_conversations@.len() ==> (
            #[trigger] i.settings.muted_conversations@[k])@ != i.conv_id@,
        !i.window_focused || i.active_conv is None || i.active_conv->Some_0@ != i.conv_id@,
    ensures
        decision_on(i).mark_unread,
        decision_on(i).notify <==> i.settings.notify_enabled && (i.last_notify is None
            || i.now.nanos - i.last_notify->Some_0.nanos >= 5_000_000_000),
{
    if is_muted(i) {
        let muted = text::texts(i.settings.muted_conversations@);
        let k = choose|k: int| 0 <= k < muted.len() && muted[k] == i.conv_id@;
        assert(i.settings.muted_conversations@[k]@ == muted[k]);
    }
}

} // verus!
