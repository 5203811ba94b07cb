//! Network editor vocabulary: topologies, replication modes, property
//! types, RPC targets, sessions, connection quality and diagnostic events.

use vstd::prelude::*;

verus! {
/// How the peers of a multiplayer session are arranged.
#[derive(Debug, Clone, Copy, PartialEq, Eq, Hash, Structural)]
pub enum NetworkTopology {
    ClientServer,
    PeerToPeer,
    Dedicated,
    ListenServer,
    Relay,
    Hybrid,
}

/// Display label of a `NetworkTopology`.
pub open spec fn network_topology_label(v: NetworkTopology) -> Seq<char> {
    match v {
        NetworkTopology::ClientServer => "Client-Server"@,
        NetworkTopology::PeerToPeer => "Peer-to-Peer"@,
        NetworkTopology::Dedicated => "Dedicated Server"@,
        NetworkTopology::ListenServer => "Listen Server"@,
        NetworkTopology::Relay => "Relay"@,
        NetworkTopology::Hybrid => "Hybrid"@,
    }
}

impl NetworkTopology {
    pub fn label(&self) -> (r: &'static str)
        ensures
            r@ == network_topology_label(*self),
    {
        match self {
            NetworkTopology::ClientServer => "Client-Server",
            NetworkTopology::PeerToPeer => "Peer-to-Peer",
            NetworkTopology::Dedicated => "Dedicated Server",
            NetworkTopology::ListenServer => "Listen Server",
            NetworkTopology::Relay => "Relay",
            NetworkTopology::Hybrid => "Hybrid",
        }
    }
}

/// Delivery guarantee used to replicate a property.
#[derive(Debug, Clone, Copy, PartialEq, Eq, Hash, Structural)]
pub enum ReplicationMode {
    Unreliable,
    Reliable,
    ReliableOrdered,
    ReliableSequenced,
    Multicast,
    OwnerOnly,
    ServerOnly,
    Skip,
}

/// Display label of a `ReplicationMode`.
pub open spec fn replication_mode_label(v: ReplicationMode) -> Seq<char> {
    match v {
        ReplicationMode::Unreliable => "Unreliable"@,
        ReplicationMode::Reliable => "Reliable"@,
        ReplicationMode::ReliableOrdered => "Reliable Ordered"@,
        ReplicationMode::ReliableSequenced => "Reliable Sequenced"@,
        ReplicationMode::Multicast => "Multicast"@,
        ReplicationMode::OwnerOnly => "Owner Only"@,
        ReplicationMode::ServerOnly => "Server Only"@,
        ReplicationMode::Skip => "No Replication"@,
    }
}

impl ReplicationMode {
    pub fn label(&self) -> (r: &'static str)
        ensures
            r@ == replication_mode_label(*self),
    {
        match self {
            ReplicationMode::Unreliable => "Unreliable",
            ReplicationMode::Reliable => "Reliable",
            ReplicationMode::ReliableOrdered => "Reliable Ordered",
            ReplicationMode::ReliableSequenced => "Reliable Sequenced",
            ReplicationMode::Multicast => "Multicast",
            ReplicationMode::OwnerOnly => "Owner Only",
            ReplicationMode::ServerOnly => "Server Only",
            ReplicationMode::Skip => "No Replication",
        }
    }
}

/// Wire type of a replicated property or RPC parameter.
#[derive(Debug, Clone, Copy, PartialEq, Eq, Hash, Structural)]
pub enum ReplicatedPropertyType {
    Bool,
    Byte,
    Int32,
    Int64,
    Float,
    Double,
    Vector3,
    Quaternion,
    String,
    Transform,
    Color,
    ObjectRef,
    Custom,
}

/// Display label of a `ReplicatedPropertyType`.
pub open spec fn replicated_property_type_label(v: ReplicatedPropertyType) -> Seq<char> {
    match v {
        ReplicatedPropertyType::Bool => "bool"@,
        ReplicatedPropertyType::Byte => "byte"@,
        ReplicatedPropertyType::Int32 => "int32"@,
        ReplicatedPropertyType::Int64 => "int64"@,
        ReplicatedPropertyType::Float => "float"@,
        ReplicatedPropertyType::Double => "double"@,
        ReplicatedPropertyType::Vector3 => "Vector3"@,
        ReplicatedPropertyType::Quaternion => "Quaternion"@,
        ReplicatedPropertyType::String => "string"@,
        ReplicatedPropertyType::Transform => "Transform"@,
        ReplicatedPropertyType::Color => "Color"@,
        ReplicatedPropertyType::ObjectRef => "Object Reference"@,
        ReplicatedPropertyType::Custom => "Custom"@,
    }
}

impl ReplicatedPropertyType {
    pub fn label(&self) -> (r: &'static str)
        ensures
            r@ == replicated_property_type_label(*self),
    {
        match self {
            ReplicatedPropertyType::Bool => "bool",
            ReplicatedPropertyType::Byte => "byte",
            ReplicatedPropertyType::Int32 => "int32",
            ReplicatedPropertyType::Int64 => "int64",
            ReplicatedPropertyType::Float => "float",
            ReplicatedPropertyType::Double => "double",
            ReplicatedPropertyType::Vector3 => "Vector3",
            ReplicatedPropertyType::Quaternion => "Quaternion",
            ReplicatedPropertyType::String => "string",
            ReplicatedPropertyType::Transform => "Transform",
            ReplicatedPropertyType::Color => "Color",
            ReplicatedPropertyType::ObjectRef => "Object Reference",
            ReplicatedPropertyType::Custom => "Custom",
        }
    }
}

/// Where a remote procedure call is delivered.
#[derive(Debug, Clone, Copy, PartialEq, Eq, Hash, Structural)]
pub enum RpcTarget {
    Server,
    AllClients,
    AllClientsIncludingSelf,
    OwnerClient,
    MulticastReliable,
    MulticastUnreliable,
}

/// Display label of a `RpcTarget`.
pub open spec fn rpc_target_label(v: RpcTarget) -> Seq<char> {
    match v {
        RpcTarget::Server => "Server"@,
        RpcTarget::AllClients => "All Clients"@,
        RpcTarget::AllClientsIncludingSelf => "All Clients (incl. Self)"@,
        RpcTarget::OwnerClient => "Owner Client"@,
        RpcTarget::MulticastReliable => "Multicast Reliable"@,
        RpcTarget::MulticastUnreliable => "Multicast Unreliable"@,
    }
}

impl RpcTarget {
    pub fn label(&self) -> (r: &'static str)
        ensures
            r@ == rpc_target_label(*self),
    {
        match self {
            RpcTarget::Server => "Server",
            RpcTarget::AllClients => "All Clients",
            RpcTarget::AllClientsIncludingSelf => "All Clients (incl. Self)",
            RpcTarget::OwnerClient => "Owner Client",
            RpcTarget::MulticastReliable => "Multicast Reliable",
            RpcTarget::MulticastUnreliable => "Multicast Unreliable",
        }
    }
}

/// Rule that decides which connections an actor is relevant to.
#[derive(Debug, Clone, Copy, PartialEq, Eq, Structural)]
pub enum RelevancyMethod {
    Distance,
    AlwaysRelevant,
    OwnerAndViewer,
    TeammatesOnly,
    Custom,
}

/// Display label of a `RelevancyMethod`.
pub open spec fn relevancy_method_label(v: RelevancyMethod) -> Seq<char> {
    match v {
        RelevancyMethod::Distance => "Distance"@,
        RelevancyMethod::AlwaysRelevant => "Always Relevant"@,
        RelevancyMethod::OwnerAndViewer => "Owner & Viewer"@,
        RelevancyMethod::TeammatesOnly => "Teammates Only"@,
        RelevancyMethod::Custom => "Custom"@,
    }
}

impl RelevancyMethod {
    pub fn label(&self) -> (r: &'static str)
        ensures
            r@ == relevancy_method_label(*self),
    {
        match self {
            RelevancyMethod::Distance => "Distance",
            RelevancyMethod::AlwaysRelevant => "Always Relevant",
            RelevancyMethod::OwnerAndViewer => "Owner & Viewer",
            RelevancyMethod::TeammatesOnly => "Teammates Only",
            RelevancyMethod::Custom => "Custom",
        }
    }
}

/// Preset of simulated network conditions.
#[derive(Debug, Clone, Copy, PartialEq, Eq, Structural)]
pub enum LagProfile {
    NoLag,
    Good,
    Average,
    Poor,
    Terrible,
    Mobile3G,
    Mobile4G,
    Wifi,
    Custom,
}

/// Display label of a `LagProfile`.
pub open spec fn lag_profile_label(v: LagProfile) -> Seq<char> {
    match v {
        LagProfile::NoLag => "No Lag"@,
        LagProfile::Good => "Good (20ms)"@,
        LagProfile::Average => "Average (60ms)"@,
        LagProfile::Poor => "Poor (150ms)"@,
        LagProfile::Terrible => "Terrible (300ms+)"@,
        LagProfile::Mobile3G => "Mobile 3G"@,
        LagProfile::Mobile4G => "Mobile 4G"@,
        LagProfile::Wifi => "WiFi"@,
        LagProfile::Custom => "Custom"@,
    }
}

impl LagProfile {
    pub fn label(&self) -> (r: &'static str)
        ensures
            r@ == lag_profile_label(*self),
    {
        match self {
            LagProfile::NoLag => "No Lag",
            LagProfile::Good => "Good (20ms)",
            LagProfile::Average => "Average (60ms)",
            LagProfile::Poor => "Poor (150ms)",
            LagProfile::Terrible => "Terrible (300ms+)",
            LagProfile::Mobile3G => "Mobile 3G",
            LagProfile::Mobile4G => "Mobile 4G",
            LagProfile::Wifi => "WiFi",
            LagProfile::Custom => "Custom",
        }
    }
}

/// Lifecycle state of a network session.
#[derive(Debug, Clone, Copy, PartialEq, Eq, Hash, Structural)]
pub enum SessionState {
    Creating,
    Searching,
    Joining,
    InLobby,
    InGame,
    Ending,
    Disconnected,
}

/// Display label of a `SessionState`.
pub open spec fn session_state_label(v: SessionState) -> Seq<char> {
    match v {
        SessionState::Creating => "Creating"@,
        SessionState::Searching => "Searching"@,
        SessionState::Joining => "Joining"@,
        SessionState::InLobby => "In Lobby"@,
        SessionState::InGame => "In Game"@,
        SessionState::Ending => "Ending"@,
        SessionState::Disconnected => "Disconnected"@,
    }
}

impl SessionState {
    pub fn label(&self) -> (r: &'static str)
        ensures
            r@ == session_state_label(*self),
    {
        match self {
            SessionState::Creating => "Creating",
            SessionState::Searching => "Searching",
            SessionState::Joining => "Joining",
            SessionState::InLobby => "In Lobby",
            SessionState::InGame => "In Game",
            SessionState::Ending => "Ending",
            SessionState::Disconnected => "Disconnected",
        }
    }
}

/// Kind of machine in the visual network topology graph.
#[derive(Debug, Clone, Copy, PartialEq, Eq, Hash, Structural)]
pub enum NetNodeKind {
    Client,
    Server,
    Relay,
    LoadBalancer,
    Database,
    Matchmaker,
    AuthServer,
    VoiceServer,
    Metrics,
    Gateway,
}

/// Display label of a `NetNodeKind`.
pub open spec fn net_node_kind_label(v: NetNodeKind) -> Seq<char> {
    match v {
        NetNodeKind::Client => "Client"@,
        NetNodeKind::Server => "Server"@,
        NetNodeKind::Relay => "Relay"@,
        NetNodeKind::LoadBalancer => "Load Balancer"@,
        NetNodeKind::Database => "Database"@,
        NetNodeKind::Matchmaker => "Matchmaker"@,
        NetNodeKind::AuthServer => "Auth Server"@,
        NetNodeKind::VoiceServer => "Voice Server"@,
        NetNodeKind::Metrics => "Metrics"@,
        NetNodeKind::Gateway => "Gateway"@,
    }
}

impl NetNodeKind {
    pub fn label(&self) -> (r: &'static str)
        ensures
            r@ == net_node_kind_label(*self),
    {
        match self {
            NetNodeKind::Client => "Client",
            NetNodeKind::Server => "Server",
            NetNodeKind::Relay => "Relay",
            NetNodeKind::LoadBalancer => "Load Balancer",
            NetNodeKind::Database => "Database",
            NetNodeKind::Matchmaker => "Matchmaker",
            NetNodeKind::AuthServer => "Auth Server",
            NetNodeKind::VoiceServer => "Voice Server",
            NetNodeKind::Metrics => "Metrics",
            NetNodeKind::Gateway => "Gateway",
        }
    }
}

/// Transport protocol of a topology edge.
#[derive(Debug, Clone, Copy, PartialEq, Eq, Structural)]
pub enum NetworkProtocol {
    Udp,
    Tcp,
    WebSocket,
    WebRtc,
    Quic,
    Rudp,
}

/// Display label of a `NetworkProtocol`.
pub open spec fn network_protocol_label(v: NetworkProtocol) -> Seq<char> {
    match v {
        NetworkProtocol::Udp => "UDP"@,
        NetworkProtocol::Tcp => "TCP"@,
        NetworkProtocol::WebSocket => "WebSocket"@,
        NetworkProtocol::WebRtc => "WebRTC"@,
        NetworkProtocol::Quic => "QUIC"@,
        NetworkProtocol::Rudp => "RUDP"@,
    }
}

impl NetworkProtocol {
    pub fn label(&self) -> (r: &'static str)
        ensures
            r@ == network_protocol_label(*self),
    {
        match self {
            NetworkProtocol::Udp => "UDP",
            NetworkProtocol::Tcp => "TCP",
            NetworkProtocol::WebSocket => "WebSocket",
            NetworkProtocol::WebRtc => "WebRTC",
            NetworkProtocol::Quic => "QUIC",
            NetworkProtocol::Rudp => "RUDP",
        }
    }
}

/// Tab of the network editor.
#[derive(Debug, Clone, Copy, PartialEq, Eq, Structural)]
pub enum NetworkEditorPanel {
    Topology,
    Replication,
    BandwidthMonitor,
    LagSimulation,
    Lobby,
    RpcBrowser,
    Diagnostics,
}

/// Display label of a `NetworkEditorPanel`.
pub open spec fn network_editor_panel_label(v: NetworkEditorPanel) -> Seq<char> {
    match v {
        NetworkEditorPanel::Topology => "Topology"@,
        NetworkEditorPanel::Replication => "Replication"@,
        NetworkEditorPanel::BandwidthMonitor => "Bandwidth"@,
        NetworkEditorPanel::LagSimulation => "Lag Sim"@,
        NetworkEditorPanel::Lobby => "Lobby"@,
        NetworkEditorPanel::RpcBrowser => "RPCs"@,
        NetworkEditorPanel::Diagnostics => "Diagnostics"@,
    }
}

impl NetworkEditorPanel {
    pub fn label(&self) -> (r: &'static str)
        ensures
            r@ == network_editor_panel_label(*self),
    {
        match self {
            NetworkEditorPanel::Topology => "Topology",
            NetworkEditorPanel::Replication => "Replication",
            NetworkEditorPanel::BandwidthMonitor => "Bandwidth",
            NetworkEditorPanel::LagSimulation => "Lag Sim",
            NetworkEditorPanel::Lobby => "Lobby",
            NetworkEditorPanel::RpcBrowser => "RPCs",
            NetworkEditorPanel::Diagnostics => "Diagnostics",
        }
    }
}

/// Kind of a network diagnostic event.
#[derive(Debug, Clone, Copy, PartialEq, Eq, Structural)]
pub enum NetworkEventKind {
    PlayerConnected,
    PlayerDisconnected,
    PacketLost,
    PacketReordered,
    PacketDuplicated,
    BandwidthThrottled,
    HighLatency,
    TimeOut,
    Reconnected,
    RpcDropped,
    AuthFailed,
    SessionCreated,
    SessionDestroyed,
    LevelLoad,
}

/// Display label of a `NetworkEventKind`.
pub open spec fn network_event_kind_label(v: NetworkEventKind) -> Seq<char> {
    match v {
        NetworkEventKind::PlayerConnected => "Player Connected"@,
        NetworkEventKind::PlayerDisconnected => "Player Disconnected"@,
        NetworkEventKind::PacketLost => "Packet Lost"@,
        NetworkEventKind::PacketReordered => "Packet Reordered"@,
        NetworkEventKind::PacketDuplicated => "Packet Duplicated"@,
        NetworkEventKind::BandwidthThrottled => "Bandwidth Throttled"@,
        NetworkEventKind::HighLatency => "High Latency"@,
        NetworkEventKind::TimeOut => "Time Out"@,
        NetworkEventKind::Reconnected => "Reconnected"@,
        NetworkEventKind::RpcDropped => "RPC Dropped"@,
        NetworkEventKind::AuthFailed => "Auth Failed"@,
        NetworkEventKind::SessionCreated => "Session Created"@,
        NetworkEventKind::SessionDestroyed => "Session Destroyed"@,
        NetworkEventKind::LevelLoad => "Level Load"@,
    }
}

impl NetworkEventKind {
    pub fn label(&self) -> (r: &'static str)
        ensures
            r@ == network_event_kind_label(*self),
    {
        match self {
            NetworkEventKind::PlayerConnected => "Player Connected",
            NetworkEventKind::PlayerDisconnected => "Player Disconnected",
            NetworkEventKind::PacketLost => "Packet Lost",
            NetworkEventKind::PacketReordered => "Packet Reordered",
            NetworkEventKind::PacketDuplicated => "Packet Duplicated",
            NetworkEventKind::BandwidthThrottled => "Bandwidth Throttled",
            NetworkEventKind::HighLatency => "High Latency",
            NetworkEventKind::TimeOut => "Time Out",
            NetworkEventKind::Reconnected => "Reconnected",
            NetworkEventKind::RpcDropped => "RPC Dropped",
            NetworkEventKind::AuthFailed => "Auth Failed",
            NetworkEventKind::SessionCreated => "Session Created",
            NetworkEventKind::SessionDestroyed => "Session Destroyed",
            NetworkEventKind::LevelLoad => "Level Load",
        }
    }
}

/// One-line explanation of a `NetworkTopology`.
pub open spec fn network_topology_description(t: NetworkTopology) -> Seq<char> {
    match t {
        NetworkTopology::ClientServer => "Authoritative server with multiple clients"@,
        NetworkTopology::PeerToPeer => "Direct peer connections, no central server"@,
        NetworkTopology::Dedicated => "Headless dedicated server process"@,
        NetworkTopology::ListenServer => "One client acts as host"@,
        NetworkTopology::Relay => "All traffic routed through relay server"@,
        NetworkTopology::Hybrid => "Mix of server-authority and P2P for low-latency data"@,
    }
}

impl NetworkTopology {
    pub fn description(&self) -> (r: &'static str)
        ensures
            r@ == network_topology_description(*self),
    {
        match self {
            NetworkTopology::ClientServer => "Authoritative server with multiple clients",
            NetworkTopology::PeerToPeer => "Direct peer connections, no central server",
            NetworkTopology::Dedicated => "Headless dedicated server process",
            NetworkTopology::ListenServer => "One client acts as host",
            NetworkTopology::Relay => "All traffic routed through relay server",
            NetworkTopology::Hybrid => "Mix of server-authority and P2P for low-latency data",
        }
    }
}

impl ReplicationMode {
    /// Ordered and sequenced delivery number their packets.
    pub fn uses_sequence_numbers(&self) -> (r: bool)
        ensures
            r <==> (*self == ReplicationMode::ReliableOrdered || *self
                == ReplicationMode::ReliableSequenced),
    {
        match self {
            ReplicationMode::ReliableOrdered | ReplicationMode::ReliableSequenced => true,
            _ => false,
        }
    }

    /// The three reliable modes guarantee delivery.
    pub fn is_reliable(&self) -> (r: bool)
        ensures
            r <==> (*self == ReplicationMode::Reliable || *self == ReplicationMode::ReliableOrdered
                || *self == ReplicationMode::ReliableSequenced),
    {
        match self {
            ReplicationMode::Reliable
            | ReplicationMode::ReliableOrdered
            | ReplicationMode::ReliableSequenced => true,
            _ => false,
        }
    }
}

/// Bytes a value of the given wire type takes (strings are an estimate).
pub open spec fn property_size_bytes(t: ReplicatedPropertyType) -> nat {
    match t {
        ReplicatedPropertyType::Bool | ReplicatedPropertyType::Byte => 1,
        ReplicatedPropertyType::Int32 | ReplicatedPropertyType::Float => 4,
        ReplicatedPropertyType::Int64 | ReplicatedPropertyType::Double => 8,
        ReplicatedPropertyType::Vector3 => 12,
        ReplicatedPropertyType::Quaternion
        | ReplicatedPropertyType::Color
        | ReplicatedPropertyType::Transform => 16,
        ReplicatedPropertyType::String => 64,
        ReplicatedPropertyType::ObjectRef => 8,
        ReplicatedPropertyType::Custom => 0,
    }
}

impl ReplicatedPropertyType {
    pub fn size_bytes(&self) -> (r: usize)
        ensures
            r == property_size_bytes(*self),
    {
        match self {
            ReplicatedPropertyType::Bool | ReplicatedPropertyType::Byte => 1,
            ReplicatedPropertyType::Int32 | ReplicatedPropertyType::Float => 4,
            ReplicatedPropertyType::Int64 | ReplicatedPropertyType::Double => 8,
            ReplicatedPropertyType::Vector3 => 12,
            ReplicatedPropertyType::Quaternion
            | ReplicatedPropertyType::Color
            | ReplicatedPropertyType::Transform => 16,
            ReplicatedPropertyType::String => 64,
            ReplicatedPropertyType::ObjectRef => 8,
            ReplicatedPropertyType::Custom => 0,
        }
    }
}

/// A named parameter of a remote procedure call.
#[derive(Debug, Clone)]
pub struct RpcParam {
    pub name: String,
    pub param_type: ReplicatedPropertyType,
}

/// Quality bucket of a connection, derived from its ping.
#[derive(Debug, Clone, Copy, PartialEq, Eq, Structural)]
pub enum ConnectionQuality {
    Excellent,
    Good,
    Fair,
    Poor,
    Disconnecting,
}

/// The bucket a ping (in milliseconds) falls into.
pub open spec fn quality_for_ping(ping_ms: u32) -> ConnectionQuality {
    if ping_ms <= 40 {
        ConnectionQuality::Excellent
    } else if ping_ms <= 80 {
        ConnectionQuality::Good
    } else if ping_ms <= 150 {
        ConnectionQuality::Fair
    } else if ping_ms <= 300 {
        ConnectionQuality::Poor
    } else {
        ConnectionQuality::Disconnecting
    }
}

/// Rank of a quality bucket, best first.
pub open spec fn quality_rank(q: ConnectionQuality) -> int {
    match q {
        ConnectionQuality::Excellent => 0,
        ConnectionQuality::Good => 1,
        ConnectionQuality::Fair => 2,
        ConnectionQuality::Poor => 3,
        ConnectionQuality::Disconnecting => 4,
    }
}

impl ConnectionQuality {
    pub fn from_ping(ping_ms: u32) -> (r: ConnectionQuality)
        ensures
            r == quality_for_ping(ping_ms),
    {
        if ping_ms <= 40 {
            ConnectionQuality::Excellent
        } else if ping_ms <= 80 {
            ConnectionQuality::Good
        } else if ping_ms <= 150 {
            ConnectionQuality::Fair
        } else if ping_ms <= 300 {
            ConnectionQuality::Poor
        } else {
            ConnectionQuality::Disconnecting
        }
    }
}

/// A higher ping never gives a better connection quality.
pub proof fn lemma_quality_monotone_in_ping(a: u32, b: u32)
    requires
        a <= b,
    ensures
        quality_rank(quality_for_ping(a)) <= quality_rank(quality_for_ping(b)),
{
}

impl NetworkProtocol {
    /// TCP, WebSocket and QUIC deliver reliably.
    pub fn is_reliable(&self) -> (r: bool)
        ensures
            r <==> (*self == NetworkProtocol::Tcp || *self == NetworkProtocol::WebSocket || *self
                == NetworkProtocol::Quic),
    {
        match self {
            NetworkProtocol::Tcp | NetworkProtocol::WebSocket | NetworkProtocol::Quic => true,
            _ => false,
        }
    }
}

impl NetworkEventKind {
    /// Lost packets, time-outs, dropped RPCs and failed authentication are errors.
    pub fn is_error(&self) -> (r: bool)
        ensures
            r <==> (*self == NetworkEventKind::PacketLost || *self == NetworkEventKind::TimeOut
                || *self == NetworkEventKind::RpcDropped || *self == NetworkEventKind::AuthFailed),
    {
        match self {
            NetworkEventKind::PacketLost
            | NetworkEventKind::TimeOut
            | NetworkEventKind::RpcDropped
            | NetworkEventKind::AuthFailed => true,
            _ => false,
        }
    }
}

} // verus!
