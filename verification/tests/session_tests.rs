use proof_engine::network::{ConnectionQuality, ReplicatedPropertyType, ReplicationMode, RpcTarget};
use proof_engine::replication::{replication_code, RpcDefinition};
use proof_engine::session::{BandwidthMonitor, BandwidthSample, NetworkPlayer, NetworkSession};

fn fire_rpc() -> RpcDefinition {
    RpcDefinition::new("ServerFire", RpcTarget::Server)
        .add_param("origin", ReplicatedPropertyType::Vector3)
        .add_param("direction", ReplicatedPropertyType::Vector3)
}

#[test]
fn rpc_parameters_add_their_wire_size() {
    let rpc = RpcDefinition::new("Ping", RpcTarget::AllClients);
    assert_eq!(rpc.estimated_bytes, 8);
    assert!(rpc.reliable && !rpc.requires_authority);
    assert_eq!(rpc.rate_limit_hz, 0);
    let rpc = fire_rpc();
    assert_eq!(rpc.estimated_bytes, 8 + 12 + 12);
    assert_eq!(rpc.params.len(), 2);
    assert_eq!(rpc.params[1].name, "direction");
}

#[test]
fn rpc_call_signatures() {
    assert_eq!(fire_rpc().call_signature(), "ServerFire(origin: Vector3, direction: Vector3) -> Server");
    assert_eq!(
        RpcDefinition::new("Sync", RpcTarget::AllClientsIncludingSelf).call_signature(),
        "Sync() -> All Clients (incl. Self)"
    );
    let one = RpcDefinition::new("Hit", RpcTarget::OwnerClient).add_param("at", ReplicatedPropertyType::ObjectRef);
    assert_eq!(one.call_signature(), "Hit(at: Object Reference) -> Owner Client");
}

#[test]
fn replication_code_lists_properties_then_rpcs() {
    let props = vec![
        ("health".to_string(), ReplicationMode::Reliable, ReplicatedPropertyType::Float),
        ("ammo".to_string(), ReplicationMode::ReliableOrdered, ReplicatedPropertyType::Int32),
    ];
    let rpcs = vec![
        fire_rpc(),
        RpcDefinition::new("MulticastExplosion", RpcTarget::MulticastUnreliable)
            .add_param("radius", ReplicatedPropertyType::Float),
    ];
    let expected = "// Replicated properties for PlayerController\n\
// [Replicated(Reliable)] pub health: float,\n\
// [Replicated(ReliableOrdered)] pub ammo: int32,\n\
\n\
// RPCs:\n\
// [RPC(Server)] fn ServerFire(origin: Vector3, direction: Vector3) -> Server;\n\
// [RPC(MulticastUnreliable)] fn MulticastExplosion(radius: float) -> Multicast Unreliable;";
    assert_eq!(replication_code("PlayerController", &props, &rpcs), expected);
    assert_eq!(replication_code("Empty", &[], &[]), "// Replicated properties for Empty\n\n// RPCs:");
}

fn player(id: u64, host: bool, ready: bool) -> NetworkPlayer {
    NetworkPlayer {
        player_id: id,
        display_name: format!("P{}", id),
        ping_ms: 30,
        is_host: host,
        is_local: false,
        is_ready: ready,
        team: None,
        connection_quality: ConnectionQuality::Excellent,
        bytes_sent: 0,
        bytes_recv: 0,
        packet_loss_pct: 0,
        load_pct: 0,
    }
}

#[test]
fn lobby_defaults_and_id() {
    let s = NetworkSession::new_lobby("Dev Session");
    assert_eq!(s.session_id, "session_dev_session");
    assert_eq!(s.session_name, "Dev Session");
    assert_eq!(s.max_players, 16);
    assert_eq!(s.map_name, "MainMap");
    assert_eq!(s.game_mode, "Team Deathmatch");
    assert_eq!(s.server_ip, "192.168.1.100");
    assert_eq!(s.server_port, 7777);
    assert_eq!(s.tick_rate, 60);
    assert_eq!(f64::from_bits(s.uptime_secs), 0.0);
    assert_eq!(NetworkSession::new_lobby("  Big  FUN ").session_id, "session___big__fun_");
}

#[test]
fn session_players_host_and_readiness() {
    let mut s = NetworkSession::new_lobby("x");
    assert_eq!(s.player_count(), 0);
    assert!(s.host_player().is_none());
    assert!(s.all_ready());
    s.players = vec![player(1, false, true), player(2, true, false), player(3, true, true), player(4, false, false)];
    assert_eq!(s.player_count(), 4);
    assert_eq!(s.host_player().unwrap().player_id, 2);
    // hosts need not be ready, the other players must
    assert!(!s.all_ready());
    s.players[3].is_ready = true;
    assert!(s.all_ready());
    assert!(!s.is_full());
    s.max_players = 4;
    assert!(s.is_full());
    s.max_players = 0;
    assert!(s.is_full());
}

fn sample(sent: u64, lost: u32) -> BandwidthSample {
    BandwidthSample { bytes_sent: sent, bytes_recv: 2 * sent, packets_lost: lost, ..Default::default() }
}

#[test]
fn monitor_totals_and_bounded_samples() {
    let mut m = BandwidthMonitor::default();
    assert_eq!(m.max_samples, 512);
    m.max_samples = 3;
    for i in 1..=5u64 {
        m.push_sample(sample(i, (i % 2) as u32));
    }
    assert_eq!(m.total_bytes_sent, 15);
    assert_eq!(m.total_bytes_recv, 30);
    assert_eq!(m.total_packets_lost, 3);
    let kept: Vec<u64> = m.samples.iter().map(|s| s.bytes_sent).collect();
    assert_eq!(kept, vec![3, 4, 5]);
}
