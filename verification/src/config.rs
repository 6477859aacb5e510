//! The configuration surface the core consumes: polling interval, merge
//! window, expiry horizon, the roster of tracked users, and the settings
//! the collaborators (web port, chat announcements) need. Loading it from
//! disk happens outside the library; these are the plain values.

use vstd::prelude::*;

verus! {

/// Where presence transitions are announced: the message templates and the
/// users a channel subscribes to.
#[derive(Debug)]
pub struct BroadcastChannel {
    pub online: String,
    pub resumed: String,
    pub offline: String,
    pub users: Vec<String>,
}

/// One tracked user: the identifier the presence source knows them by, and
/// the display name the store files them under.
#[derive(Debug, Clone)]
pub struct Identifier {
    pub uuid: String,
    pub name: String,
}

/// The process configuration. `interval` is the polling period in seconds,
/// `merge` the merge window in seconds, `expire` the expiry horizon in
/// days; `broadcast_channels` pairs a channel id with its announcement
/// settings.
#[derive(Debug)]
pub struct Config {
    pub keys: Vec<String>,
    pub interval: u64,
    pub discord_token: String,
    pub broadcast_channels: Vec<(u64, BroadcastChannel)>,
    pub port: u16,
    pub merge: u64,
    pub expire: u64,
    pub users: Vec<Identifier>,
}

impl Default for Config {
    /// The configuration written on first start: poll every minute, merge
    /// gaps below a minute, keep seventy days of records, serve on port
    /// 8080, and track nobody yet.
    fn default() -> (c: Config)
        ensures
            c.keys@.len() == 0,
            c.interval == 60,
            c.discord_token@.len() == 0,
            c.broadcast_channels@.len() == 0,
            c.port == 8080,
            c.merge == 60,
            c.expire == 70,
            c.users@.len() == 0,
    {
        Config {
            keys: Vec::new(),
            interval: 60,
            discord_token: String::new(),
            broadcast_channels: Vec::new(),
            port: 8080,
            merge: 60,
            expire: 70,
            users: Vec::new(),
        }
    }
}

} // verus!
