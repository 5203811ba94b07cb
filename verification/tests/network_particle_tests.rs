use proof_engine::network::{
    ConnectionQuality, LagProfile, NetNodeKind, NetworkEditorPanel, NetworkEventKind,
    NetworkProtocol, NetworkTopology, RelevancyMethod, ReplicatedPropertyType, ReplicationMode,
    RpcTarget, SessionState,
};
use proof_engine::particles::{copy_name, duplicate_slot, remove_system, search_systems};

#[test]
fn network_labels() {
    assert_eq!(NetworkTopology::ListenServer.label(), "Listen Server");
    assert_eq!(NetworkTopology::Relay.description(), "All traffic routed through relay server");
    assert_eq!(ReplicationMode::Skip.label(), "No Replication");
    assert_eq!(ReplicatedPropertyType::ObjectRef.label(), "Object Reference");
    assert_eq!(RpcTarget::AllClientsIncludingSelf.label(), "All Clients (incl. Self)");
    assert_eq!(RelevancyMethod::OwnerAndViewer.label(), "Owner & Viewer");
    assert_eq!(LagProfile::NoLag.label(), "No Lag");
    assert_eq!(LagProfile::Terrible.label(), "Terrible (300ms+)");
    assert_eq!(SessionState::InLobby.label(), "In Lobby");
    assert_eq!(NetNodeKind::LoadBalancer.label(), "Load Balancer");
    assert_eq!(NetworkProtocol::WebRtc.label(), "WebRTC");
    assert_eq!(NetworkEditorPanel::LagSimulation.label(), "Lag Sim");
    assert_eq!(NetworkEventKind::RpcDropped.label(), "RPC Dropped");
}

#[test]
fn replication_and_protocol_properties() {
    assert!(ReplicationMode::ReliableOrdered.uses_sequence_numbers());
    assert!(!ReplicationMode::Reliable.uses_sequence_numbers());
    assert!(ReplicationMode::Reliable.is_reliable());
    assert!(!ReplicationMode::Multicast.is_reliable());
    assert!(NetworkProtocol::Quic.is_reliable());
    assert!(!NetworkProtocol::Udp.is_reliable());
    assert!(NetworkEventKind::AuthFailed.is_error());
    assert!(!NetworkEventKind::Reconnected.is_error());
}

#[test]
fn property_sizes() {
    assert_eq!(ReplicatedPropertyType::Bool.size_bytes(), 1);
    assert_eq!(ReplicatedPropertyType::Double.size_bytes(), 8);
    assert_eq!(ReplicatedPropertyType::Vector3.size_bytes(), 12);
    assert_eq!(ReplicatedPropertyType::Transform.size_bytes(), 16);
    assert_eq!(ReplicatedPropertyType::String.size_bytes(), 64);
    assert_eq!(ReplicatedPropertyType::Custom.size_bytes(), 0);
}

#[test]
fn connection_quality_buckets() {
    assert_eq!(ConnectionQuality::from_ping(0), ConnectionQuality::Excellent);
    assert_eq!(ConnectionQuality::from_ping(40), ConnectionQuality::Excellent);
    assert_eq!(ConnectionQuality::from_ping(41), ConnectionQuality::Good);
    assert_eq!(ConnectionQuality::from_ping(150), ConnectionQuality::Fair);
    assert_eq!(ConnectionQuality::from_ping(300), ConnectionQuality::Poor);
    assert_eq!(ConnectionQuality::from_ping(301), ConnectionQuality::Disconnecting);
}

#[test]
fn removing_systems_moves_selection() {
    let mut systems = vec!["fire", "smoke", "sparks"];
    let mut selected = Some(1);
    remove_system(&mut systems, &mut selected, 1);
    assert_eq!(systems, vec!["fire", "sparks"]);
    assert_eq!(selected, Some(0));
    let mut selected = Some(1);
    remove_system(&mut systems, &mut selected, 0);
    assert_eq!(systems, vec!["sparks"]);
    assert_eq!(selected, Some(1));
    let mut selected = Some(0);
    remove_system(&mut systems, &mut selected, 5);
    assert_eq!(systems, vec!["sparks"]);
    remove_system(&mut systems, &mut selected, 0);
    assert!(systems.is_empty());
    assert_eq!(selected, None);
}

#[test]
fn duplicate_names() {
    assert_eq!(copy_name("Fire"), "Fire_copy");
    assert_eq!(copy_name(""), "_copy");
}

#[test]
fn searching_systems_ignores_case() {
    let names = vec!["Fire".to_string(), "Smoke".to_string(), "Campfire Embers".to_string()];
    let tags = vec![vec![], vec!["FOG".to_string()], vec!["hot".to_string()]];
    assert_eq!(search_systems(&names, &tags, "FIRE"), vec![0, 2]);
    assert_eq!(search_systems(&names, &tags, "fog"), vec![1]);
    assert_eq!(search_systems(&names, &tags, "Hot"), vec![2]);
    assert_eq!(search_systems(&names, &tags, ""), vec![0, 1, 2]);
    assert!(search_systems(&names, &tags, "water").is_empty());
}

#[test]
fn searching_systems_matches_runs_of_characters() {
    let names = vec!["Glühwein Dampf".to_string(), "ab".to_string(), "a-b".to_string()];
    let tags = vec![vec![], vec![], vec![]];
    // a match may end at the last character, and must be contiguous
    assert_eq!(search_systems(&names, &tags, "DAMPF"), vec![0]);
    assert_eq!(search_systems(&names, &tags, "ühw"), vec![0]);
    assert_eq!(search_systems(&names, &tags, "ab"), vec![1]);
    assert_eq!(search_systems(&names, &tags, "b"), vec![1, 2]);
    // a query longer than every name matches nothing
    assert!(search_systems(&names, &tags, "glühwein dampf!").is_empty());
}

#[test]
fn duplicate_slot_takes_the_next_id() {
    let mut next_id: u64 = 5;
    assert_eq!(duplicate_slot(3, 1, &mut next_id), Some((5, 3)));
    assert_eq!(next_id, 6);
    assert_eq!(duplicate_slot(3, 3, &mut next_id), None);
    assert_eq!(next_id, 6);
}
