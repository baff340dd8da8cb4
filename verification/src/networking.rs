//! The network protocol's plain data: channels and their settings, the input
//! keys a client sends, the guaranteed packets, and the client's replies.
use vstd::prelude::*;
use std::collections::HashMap;

verus! {

/// The two message channels.
#[derive(Clone, Copy, PartialEq, Eq, Debug, Structural)]
pub enum Channels {
    /// Unacknowledged-order traffic that is never resent.
    Fast,
    /// Traffic resent until it arrives.
    Garanteed,
}

/// The wire id of a channel.
pub open spec fn channel_id(c: Channels) -> u8 {
    match c {
        Channels::Fast => 0,
        Channels::Garanteed => 1,
    }
}

impl From<Channels> for u8 {
    fn from(channel_id: Channels) -> (r: u8) {
        match channel_id {
            Channels::Fast => 0,
            Channels::Garanteed => 1,
        }
    }
}

impl vstd::std_specs::convert::FromSpecImpl<Channels> for u8 {
    open spec fn obeys_from_spec() -> bool {
        true
    }

    open spec fn from_spec(v: Channels) -> u8 {
        channel_id(v)
    }
}

/// Bytes each channel may buffer.
pub const CHANNEL_MEMORY_BYTES: usize = 2097152;

/// Bytes the connection may send per tick.
pub const BYTES_PER_TICK: u64 = 2097152;

/// Milliseconds before the guaranteed channel resends.
pub const GARANTEED_RESEND_MS: u64 = 200;

/// The settings of one channel: its id, its buffer size, and the delay before
/// an unacknowledged message is resent (all messages arrive in order).
#[derive(Clone, Copy, PartialEq, Eq, Debug, Structural)]
pub struct ChannelSettings {
    pub channel_id: u8,
    pub max_memory_usage_bytes: usize,
    pub resend_time_ms: u64,
}

/// The settings of the channel `c`.
pub open spec fn channel_settings(c: Channels) -> ChannelSettings {
    ChannelSettings {
        channel_id: channel_id(c),
        max_memory_usage_bytes: CHANNEL_MEMORY_BYTES,
        resend_time_ms: match c {
            Channels::Fast => 0,
            Channels::Garanteed => GARANTEED_RESEND_MS,
        },
    }
}

impl Channels {
    /// The settings of both channels, fast first.
    pub fn channels_config() -> (r: Vec<ChannelSettings>)
        ensures
            r@ == seq![channel_settings(Channels::Fast), channel_settings(Channels::Garanteed)],
    {
        let r = vec![
            ChannelSettings {
                channel_id: Channels::Fast.into(),
                max_memory_usage_bytes: CHANNEL_MEMORY_BYTES,
                resend_time_ms: 0,
            },
            ChannelSettings {
                channel_id: Channels::Garanteed.into(),
                max_memory_usage_bytes: CHANNEL_MEMORY_BYTES,
                resend_time_ms: GARANTEED_RESEND_MS,
            },
        ];
        proof {
            assert(r@ =~= seq![channel_settings(Channels::Fast), channel_settings(Channels::Garanteed)]);
        }
        r
    }
}

/// The settings of a connection: its send budget per tick and the channels of
/// each side.
pub struct ConnectionSettings {
    pub available_bytes_per_tick: u64,
    pub client_channels_config: Vec<ChannelSettings>,
    pub server_channels_config: Vec<ChannelSettings>,
}

/// The connection settings both sides use.
pub fn connection_config() -> (r: ConnectionSettings)
    ensures
        r.available_bytes_per_tick == BYTES_PER_TICK,
        r.client_channels_config@ == seq![channel_settings(Channels::Fast), channel_settings(Channels::Garanteed)],
        r.server_channels_config@ == r.client_channels_config@,
{
    ConnectionSettings {
        available_bytes_per_tick: BYTES_PER_TICK,
        client_channels_config: Channels::channels_config(),
        server_channels_config: Channels::channels_config(),
    }
}

/// The movement keys a client holds down.
#[derive(Clone, Copy, PartialEq, Eq, Debug, Structural)]
pub struct InputKeys {
    pub up: bool,
    pub down: bool,
    pub left: bool,
    pub right: bool,
}

/// 1 for a held key, 0 otherwise.
pub open spec fn held(b: bool) -> int {
    if b { 1 } else { 0 }
}

impl InputKeys {
    /// The direction the keys push in: right minus left, up minus down.
    pub fn direction(&self) -> (r: (i8, i8))
        ensures
            r.0 == held(self.right) - held(self.left),
            r.1 == held(self.up) - held(self.down),
    {
        let mut x: i8 = 0;
        let mut y: i8 = 0;
        if self.up {
            y = y + 1;
        }
        if self.down {
            y = y - 1;
        }
        if self.left {
            x = x - 1;
        }
        if self.right {
            x = x + 1;
        }
        (x, y)
    }
}

/// A packet the server sends on the guaranteed channel.
pub enum ServerGaranteedDataPacket {
    /// The client is connected.
    Connected,
    /// A text message.
    Message { text: String },
}

/// A packet a client sends on the guaranteed channel.
pub enum ClientGaranteedDataPacket {
    /// A text message.
    Message { text: String },
}

/// The greeting a client answers a connection with.
pub open spec fn greeting() -> Seq<char> {
    seq!['H', 'a', 'l', 'o', '!']
}

/// A client's answer to a guaranteed packet from the server: a greeting when it
/// gets connected, nothing for a message (which it shows).
pub fn client_reply(msg: &ServerGaranteedDataPacket) -> (r: Option<ClientGaranteedDataPacket>)
    ensures
        msg is Connected ==> (r matches Option::Some(ClientGaranteedDataPacket::Message { text }) && text@ == greeting()),
        msg is Message ==> r is None,
{
    match msg {
        ServerGaranteedDataPacket::Connected => {
            let text = String::from_str("Halo!");
            proof {
                reveal_strlit("Halo!");
                assert(text@ =~= greeting());
            }
            Some(ClientGaranteedDataPacket::Message { text })
        },
        ServerGaranteedDataPacket::Message { .. } => None,
    }
}


broadcast use vstd::std_specs::hash::group_hash_axioms;

/// The server's players: the puppet entity of each client.
pub struct Players {
    players: HashMap<u64, u64>,
}

impl Players {
    /// The puppet of each client.
    pub closed spec fn view_map(&self) -> Map<u64, u64> {
        self.players@
    }

    /// No players.
    pub fn new() -> (r: Self)
        ensures
            r.view_map() == Map::<u64, u64>::empty(),
    {
        Players { players: HashMap::new() }
    }

    /// Client `client_id` connected and got puppet `entity`.
    pub fn on_connect(&mut self, client_id: u64, entity: u64)
        ensures
            final(self).view_map() == old(self).view_map().insert(client_id, entity),
    {
        self.players.insert(client_id, entity);
    }

    /// Client `client_id` disconnected: its puppet, to despawn, if it has one
    /// (the client stays recorded).
    pub fn on_disconnect(&self, client_id: u64) -> (r: Option<u64>)
        ensures
            r matches Option::Some(e) ==> self.view_map().contains_key(client_id) && e == self.view_map()[client_id],
            r is None ==> !self.view_map().contains_key(client_id),
    {
        match self.players.get(&client_id) {
            Some(e) => Some(*e),
            None => None,
        }
    }
}

} // verus!
