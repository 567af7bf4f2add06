//! What the user can set.

use vstd::prelude::*;

verus! {

/// The user's settings.
#[derive(Debug, Clone, PartialEq)]
pub struct Settings {
    /// The nickname; the host name is used where there is none.
    pub nickname: Option<String>,
    /// The work group that is announced to the other peers.
    pub group: Option<String>,
    /// Where received files are put.
    pub download_dir: Option<String>,
    /// Whether the IP Messenger protocol is spoken.
    pub ipmsg_enabled: bool,
    /// Names of interfaces that are not to be used.
    pub excluded_interfaces: Vec<String>,
    /// The allowed peer addresses, one entry to a line; none allows all.
    pub allowed_networks: Vec<String>,
    /// Whether notifications are shown; unread marks are set regardless.
    pub notify_enabled: bool,
    /// Whether notifications make a sound.
    pub notify_sound: bool,
    /// Whether notifications show the message.
    pub notify_show_preview: bool,
    /// Conversations without any notice.
    pub muted_conversations: Vec<String>,
}

impl Settings {
    /// Whether nothing was set: the host name is the nickname, every interface
    /// and every network is allowed, the IP Messenger protocol is spoken, and
    /// notifications are shown in full, with a sound.
    pub open spec fn is_default(self) -> bool {
        &&& self.nickname is None
        &&& self.group is None
        &&& self.download_dir is None
        &&& self.ipmsg_enabled
        &&& self.excluded_interfaces@.len() == 0
        &&& self.allowed_networks@.len() == 0
        &&& self.notify_enabled
        &&& self.notify_sound
        &&& self.notify_show_preview
        &&& self.muted_conversations@.len() == 0
    }
}

impl Default for Settings {
    fn default() -> (r: Self)
        ensures
            r.is_default(),
    {
        Settings {
            nickname: None,
            group: None,
            download_dir: None,
            ipmsg_enabled: true,
            excluded_interfaces: Vec::new(),
            allowed_networks: Vec::new(),
            notify_enabled: true,
            notify_sound: true,
            notify_show_preview: true,
            muted_conversations: Vec::new(),
        }
    }
}

/// The settings that the settings file holds; `found` is what could be read of
/// it. A file that is missing or cannot be read sets nothing.
pub fn load(found: Option<Settings>) -> (r: Settings)
    ensures
        match found {
            Some(s) => r == s,
            None => r.is_default(),
        },
{
    match found {
        Some(s) => s,
        None => Settings::default(),
    }
}

} // verus!
