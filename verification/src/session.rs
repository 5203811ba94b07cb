//! Multiplayer sessions and their players, and the monitor that totals the
//! traffic samples of a connection.

use crate::editor::push_char;
use crate::network::{ConnectionQuality, NetworkTopology, SessionState};
use crate::particles::{lowercase_of, to_lowercase};
use vstd::prelude::*;
use vstd::std_specs::iter::IteratorSpec;
use vstd::string::StringExecFns;

verus! {

/// A player of a session.
#[derive(Debug, Clone)]
pub struct NetworkPlayer {
    pub player_id: u64,
    pub display_name: String,
    pub ping_ms: u32,
    pub is_host: bool,
    pub is_local: bool,
    pub is_ready: bool,
    pub team: Option<u32>,
    pub connection_quality: ConnectionQuality,
    pub bytes_sent: u64,
    pub bytes_recv: u64,
    /// The `f32` share of packets lost, in percent, as its bit pattern.
    pub packet_loss_pct: u32,
    /// The `f32` load, in percent, as its bit pattern.
    pub load_pct: u32,
}

/// A multiplayer session.
#[derive(Debug, Clone)]
pub struct NetworkSession {
    pub session_id: String,
    pub session_name: String,
    pub topology: NetworkTopology,
    pub state: SessionState,
    pub max_players: u32,
    pub players: Vec<NetworkPlayer>,
    pub map_name: String,
    pub game_mode: String,
    pub is_private: bool,
    pub server_region: String,
    pub server_ip: String,
    pub server_port: u16,
    pub tick_rate: u32,
    /// The `f64` seconds the session has run, as its bit pattern.
    pub uptime_secs: u64,
}

/// `s` with every space replaced by an underscore.
pub open spec fn spaces_to_underscores(s: Seq<char>) -> Seq<char> {
    s.map_values(|c: char| if c == ' ' { '_' } else { c })
}

/// The id of a lobby named `name`: "session_" and the lowercased name with
/// its spaces replaced by underscores.
pub open spec fn lobby_id(name: Seq<char>) -> Seq<char> {
    "session_"@ + spaces_to_underscores(lowercase_of(name))
}

/// The number of players, as a `u32` count wraps.
pub open spec fn player_count_of(s: NetworkSession) -> nat {
    s.players@.len() % 0x1_0000_0000
}

impl NetworkSession {
    /// An empty public lobby on a dedicated server: sixteen places, map
    /// "MainMap", mode "Team Deathmatch", region "us-east-1", server
    /// 192.168.1.100:7777 at sixty ticks a second, just started.
    pub fn new_lobby(name: &str) -> (r: Self)
        ensures
            r.session_id@ == lobby_id(name@),
            r.session_name@ == name@,
            r.topology == NetworkTopology::Dedicated,
            r.state == SessionState::InLobby,
            r.max_players == 16,
            r.players@.len() == 0,
            r.map_name@ == "MainMap"@,
            r.game_mode@ == "Team Deathmatch"@,
            !r.is_private,
            r.server_region@ == "us-east-1"@,
            r.server_ip@ == "192.168.1.100"@,
            r.server_port == 7777,
            r.tick_rate == 60,
            r.uptime_secs == 0,
    {
        let lowered = to_lowercase(name);
        let mut id = String::new();
        id.append("session_");
        let ghost prefix = id@;
        for c in it: lowered.as_str().chars()
            invariant
                it.seq() == lowered@,
                prefix == "session_"@,
                id@ == prefix + spaces_to_underscores(lowered@.take(it.index())),
        {
            let ghost before = id@;
            if c == ' ' {
                push_char(&mut id, '_');
            } else {
                push_char(&mut id, c);
            }
            proof {
                assert(c == lowered@[it.index()]);
                assert(lowered@.take(it.index() + 1) =~= lowered@.take(it.index()).push(c));
                assert(spaces_to_underscores(lowered@.take(it.index() + 1)) =~= spaces_to_underscores(
                    lowered@.take(it.index()),
                ).push(if c == ' ' { '_' } else { c }));
                assert(id@ =~= prefix + spaces_to_underscores(lowered@.take(it.index() + 1)));
            }
        }
        proof {
            assert(lowered@.take(lowered@.len() as int) =~= lowered@);
        }
        NetworkSession {
            session_id: id,
            session_name: name.to_owned(),
            topology: NetworkTopology::Dedicated,
            state: SessionState::InLobby,
            max_players: 16,
            players: Vec::new(),
            map_name: "MainMap".to_owned(),
            game_mode: "Team Deathmatch".to_owned(),
            is_private: false,
            server_region: "us-east-1".to_owned(),
            server_ip: "192.168.1.100".to_owned(),
            server_port: 7777,
            tick_rate: 60,
            uptime_secs: 0,
        }
    }

    /// The number of players, counted in a `u32` (wrapping past its range).
    pub fn player_count(&self) -> (r: u32)
        ensures
            r == player_count_of(*self),
    {
        let n: u64 = self.players.len() as u64;
        (n % 0x1_0000_0000u64) as u32
    }

    /// Whether the player count has reached the session's places.
    pub fn is_full(&self) -> (r: bool)
        ensures
            r == (player_count_of(*self) >= self.max_players),
    {
        self.player_count() >= self.max_players
    }

    /// The first player who hosts.
    pub fn host_player(&self) -> (r: Option<&NetworkPlayer>)
        ensures
            match r {
                Some(p) => exists|k: int|
                    0 <= k < self.players@.len() && self.players@[k].is_host && *p == self.players@[k] && forall|j: int|
                        0 <= j < k ==> !(#[trigger] self.players@[j]).is_host,
                None => forall|k: int| 0 <= k < self.players@.len() ==> !(#[trigger] self.players@[k]).is_host,
            },
    {
        let mut k: usize = 0;
        while k < self.players.len()
            invariant
                k <= self.players@.len(),
                forall|j: int| 0 <= j < k ==> !(#[trigger] self.players@[j]).is_host,
            decreases self.players@.len() - k,
        {
            if self.players[k].is_host {
                return Some(&self.players[k]);
            }
            k += 1;
        }
        None
    }

    /// Whether every player but the hosts is ready.
    pub fn all_ready(&self) -> (r: bool)
        ensures
            r == forall|k: int|
                0 <= k < self.players@.len() && !(#[trigger] self.players@[k]).is_host ==> self.players@[k].is_ready,
    {
        let mut k: usize = 0;
        while k < self.players.len()
            invariant
                k <= self.players@.len(),
                forall|j: int| 0 <= j < k && !(#[trigger] self.players@[j]).is_host ==> self.players@[j].is_ready,
            decreases self.players@.len() - k,
        {
            if !self.players[k].is_host && !self.players[k].is_ready {
                return false;
            }
            k += 1;
        }
        true
    }
}

/// Traffic of a connection over one interval.
#[derive(Debug, Clone, Copy, Default)]
pub struct BandwidthSample {
    /// The `f64` time of the sample in milliseconds, as its bit pattern.
    pub timestamp_ms: u64,
    pub bytes_sent: u64,
    pub bytes_recv: u64,
    pub packets_sent: u32,
    pub packets_recv: u32,
    pub packets_lost: u32,
    /// The `f32` round trip in milliseconds, as its bit pattern.
    pub rtt_ms: u32,
}

/// The latest traffic samples of a connection and its totals since the
/// session started.
#[derive(Debug, Clone)]
pub struct BandwidthMonitor {
    pub samples: Vec<BandwidthSample>,
    pub max_samples: usize,
    pub total_bytes_sent: u64,
    pub total_bytes_recv: u64,
    pub total_packets_lost: u64,
    /// The `f64` start of the session in milliseconds, as its bit pattern.
    pub session_start_ms: u64,
}

/// The samples kept after `sample` is added: all of them, less the oldest
/// where that leaves more than `max` samples.
pub open spec fn kept_samples(samples: Seq<BandwidthSample>, sample: BandwidthSample, max: usize) -> Seq<
    BandwidthSample,
> {
    let pushed = samples.push(sample);
    if pushed.len() > max {
        pushed.drop_first()
    } else {
        pushed
    }
}

impl Default for BandwidthMonitor {
    /// No samples, at most 512 kept, nothing counted.
    fn default() -> (r: Self)
        ensures
            r.samples@.len() == 0,
            r.max_samples == 512,
            r.total_bytes_sent == 0,
            r.total_bytes_recv == 0,
            r.total_packets_lost == 0,
            r.session_start_ms == 0,
    {
        BandwidthMonitor {
            samples: Vec::new(),
            max_samples: 512,
            total_bytes_sent: 0,
            total_bytes_recv: 0,
            total_packets_lost: 0,
            session_start_ms: 0,
        }
    }
}

impl BandwidthMonitor {
    /// Counts a sample into the totals and keeps it, dropping the oldest
    /// sample when more than `max_samples` would be kept.
    pub fn push_sample(&mut self, sample: BandwidthSample)
        requires
            old(self).total_bytes_sent + sample.bytes_sent <= u64::MAX,
            old(self).total_bytes_recv + sample.bytes_recv <= u64::MAX,
            old(self).total_packets_lost + sample.packets_lost <= u64::MAX,
        ensures
            final(self).total_bytes_sent == old(self).total_bytes_sent + sample.bytes_sent,
            final(self).total_bytes_recv == old(self).total_bytes_recv + sample.bytes_recv,
            final(self).total_packets_lost == old(self).total_packets_lost + sample.packets_lost,
            final(self).samples@ == kept_samples(old(self).samples@, sample, old(self).max_samples),
            final(self).max_samples == old(self).max_samples,
            final(self).session_start_ms == old(self).session_start_ms,
            old(self).samples@.len() <= old(self).max_samples ==> final(self).samples@.len()
                <= final(self).max_samples,
    {
        self.total_bytes_sent = self.total_bytes_sent + sample.bytes_sent;
        self.total_bytes_recv = self.total_bytes_recv + sample.bytes_recv;
        self.total_packets_lost = self.total_packets_lost + sample.packets_lost as u64;
        let ghost pushed = self.samples@.push(sample);
        self.samples.push(sample);
        if self.samples.len() > self.max_samples {
            self.samples.remove(0);
            proof {
                assert(self.samples@ =~= pushed.drop_first());
            }
        }
    }
}

} // verus!
