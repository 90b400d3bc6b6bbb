use std::collections::HashMap;
use zeroclaw::gateway::clock::Timestamp;
use zeroclaw::gateway::control_plane::{
    ControlEvent, ControlPlane, NodeCapability, NodeInfo, NodeStatus,
};

fn now() -> Timestamp {
    let t = chrono::Utc::now();
    Timestamp { secs: t.timestamp(), nanos: t.timestamp_subsec_nanos() }
}

fn make_control_plane() -> ControlPlane {
    ControlPlane::new(100)
}

fn make_node(id: &str) -> NodeInfo {
    NodeInfo {
        id: id.to_string(),
        name: Some(format!("node-{id}")),
        address: Some("127.0.0.1:42618".to_string()),
        version: Some("0.4.3".to_string()),
        capabilities: vec![NodeCapability::Inference, NodeCapability::ToolExecution],
        status: NodeStatus::Healthy,
        registered_at: now(),
        last_heartbeat: now(),
        missed_heartbeats: 0,
        metadata: HashMap::new(),
    }
}

#[test]
fn test_register_and_list() {
    let mut cp = make_control_plane();
    assert!(cp.register(make_node("a")));
    assert!(cp.register(make_node("b")));
    assert_eq!(cp.node_count(), 2);
    let nodes = cp.list_nodes();
    assert_eq!(nodes.len(), 2);
}

#[test]
fn test_deregister() {
    let mut cp = make_control_plane();
    cp.register(make_node("a"));
    assert!(cp.deregister("a"));
    assert!(!cp.deregister("a")); // already removed
    assert_eq!(cp.node_count(), 0);
}

#[test]
fn test_heartbeat() {
    let mut cp = make_control_plane();
    cp.register(make_node("a"));
    assert!(cp.heartbeat("a"));
    assert!(!cp.heartbeat("nonexistent"));
}

#[test]
fn test_health_tick_degraded() {
    let mut cp = make_control_plane();
    cp.register(make_node("a"));
    for _ in 0..3 {
        cp.health_tick();
    }
    let node = cp.get_node("a").unwrap();
    assert_eq!(node.status, NodeStatus::Degraded);
}

#[test]
fn test_health_tick_unreachable() {
    let mut cp = make_control_plane();
    cp.register(make_node("a"));
    for _ in 0..10 {
        cp.health_tick();
    }
    let node = cp.get_node("a").unwrap();
    assert_eq!(node.status, NodeStatus::Unreachable);
}

#[test]
fn test_heartbeat_resets_status() {
    let mut cp = make_control_plane();
    cp.register(make_node("a"));
    for _ in 0..5 {
        cp.health_tick();
    }
    assert_eq!(cp.get_node("a").unwrap().status, NodeStatus::Degraded);
    cp.heartbeat("a");
    assert_eq!(cp.get_node("a").unwrap().status, NodeStatus::Healthy);
}

#[test]
fn test_capacity_limit() {
    let mut cp = ControlPlane::new(2);
    assert!(cp.register(make_node("a")));
    assert!(cp.register(make_node("b")));
    assert!(!cp.register(make_node("c"))); // at capacity
}

fn at(secs: i64) -> Timestamp {
    Timestamp { secs, nanos: 0 }
}

#[test]
fn register_existing_id_replaces_even_at_capacity() {
    let mut cp = ControlPlane::new(1);
    assert!(cp.register_at(make_node("a"), at(1)));
    let mut replacement = make_node("a");
    replacement.name = Some("renamed".to_string());
    assert!(cp.register_at(replacement, at(2)));
    assert_eq!(cp.node_count(), 1);
    assert_eq!(cp.get_node("a").unwrap().name, Some("renamed".to_string()));
    assert!(!cp.register_at(make_node("b"), at(3)));
    assert!(cp.get_node("b").is_none());
}

#[test]
fn zero_capacity_refuses_everything() {
    let mut cp = ControlPlane::new(0);
    assert!(!cp.register(make_node("a")));
    assert_eq!(cp.node_count(), 0);
    assert!(cp.take_events().is_empty());
}

#[test]
fn get_node_returns_what_was_registered() {
    let mut cp = make_control_plane();
    let mut info = make_node("x");
    info.metadata.insert("zone".to_string(), "eu".to_string());
    info.capabilities.push(NodeCapability::Custom("gpu".to_string()));
    info.missed_heartbeats = 7;
    info.status = NodeStatus::Offline;
    cp.register_at(info, at(5));
    let got = cp.get_node("x").unwrap();
    assert_eq!(got.id, "x");
    assert_eq!(got.name, Some("node-x".to_string()));
    assert_eq!(got.address, Some("127.0.0.1:42618".to_string()));
    assert_eq!(got.version, Some("0.4.3".to_string()));
    assert_eq!(
        got.capabilities,
        vec![
            NodeCapability::Inference,
            NodeCapability::ToolExecution,
            NodeCapability::Custom("gpu".to_string())
        ]
    );
    assert_eq!(got.metadata.get("zone"), Some(&"eu".to_string()));
    assert_eq!(got.missed_heartbeats, 7);
    assert_eq!(got.status, NodeStatus::Offline);
    assert!(cp.get_node("y").is_none());
}

#[test]
fn health_tick_thresholds_and_offline() {
    let mut cp = make_control_plane();
    cp.register_at(make_node("a"), at(1));
    let mut off = make_node("off");
    off.status = NodeStatus::Offline;
    cp.register_at(off, at(1));
    let mut statuses = Vec::new();
    for _ in 0..11 {
        cp.health_tick();
        statuses.push(cp.get_node("a").unwrap().status);
    }
    assert_eq!(statuses[0], NodeStatus::Healthy);
    assert_eq!(statuses[1], NodeStatus::Healthy);
    assert_eq!(statuses[2], NodeStatus::Degraded);
    assert_eq!(statuses[8], NodeStatus::Degraded);
    assert_eq!(statuses[9], NodeStatus::Unreachable);
    assert_eq!(statuses[10], NodeStatus::Unreachable);
    assert_eq!(cp.get_node("a").unwrap().missed_heartbeats, 11);
    let off = cp.get_node("off").unwrap();
    assert_eq!(off.status, NodeStatus::Offline);
    assert_eq!(off.missed_heartbeats, 0);
}

#[test]
fn heartbeat_revives_offline_node_and_resets_count() {
    let mut cp = make_control_plane();
    let mut off = make_node("n");
    off.status = NodeStatus::Offline;
    off.missed_heartbeats = 4;
    cp.register_at(off, at(1));
    cp.take_events();
    assert!(cp.heartbeat_at("n", at(9), at(10), at(11)));
    let n = cp.get_node("n").unwrap();
    assert_eq!(n.status, NodeStatus::Healthy);
    assert_eq!(n.missed_heartbeats, 0);
    assert_eq!(n.last_heartbeat, at(9));
    let events = cp.take_events();
    assert_eq!(events.len(), 2);
    match &events[0] {
        ControlEvent::NodeStatusChanged { node_id, old_status, new_status, timestamp } => {
            assert_eq!(node_id, "n");
            assert_eq!(*old_status, NodeStatus::Offline);
            assert_eq!(*new_status, NodeStatus::Healthy);
            assert_eq!(*timestamp, at(10));
        }
        other => panic!("unexpected event {other:?}"),
    }
    assert!(matches!(&events[1], ControlEvent::NodeHeartbeat { node_id, timestamp } if node_id == "n" && *timestamp == at(11)));
}

#[test]
fn events_queue_in_order_and_drain() {
    let mut cp = make_control_plane();
    cp.register_at(make_node("a"), at(1));
    cp.heartbeat_at("a", at(2), at(2), at(2));
    cp.heartbeat_at("ghost", at(3), at(3), at(3));
    cp.deregister_at("a", at(4));
    cp.deregister_at("a", at(5));
    let events = cp.take_events();
    assert_eq!(events.len(), 3);
    match &events[0] {
        ControlEvent::NodeRegistered { node_id, name, capabilities, timestamp } => {
            assert_eq!(node_id, "a");
            assert_eq!(name.as_deref(), Some("node-a"));
            assert_eq!(capabilities.len(), 2);
            assert_eq!(*timestamp, at(1));
        }
        other => panic!("unexpected event {other:?}"),
    }
    assert!(matches!(&events[1], ControlEvent::NodeHeartbeat { timestamp, .. } if *timestamp == at(2)));
    assert!(matches!(&events[2], ControlEvent::NodeDeregistered { node_id, timestamp } if node_id == "a" && *timestamp == at(4)));
    assert!(cp.take_events().is_empty());
}

#[test]
fn list_nodes_holds_each_node_once() {
    let mut cp = make_control_plane();
    for id in ["a", "b", "c"] {
        cp.register(make_node(id));
    }
    cp.register(make_node("b"));
    cp.deregister("a");
    let mut ids: Vec<String> = cp.list_nodes().into_iter().map(|n| n.id).collect();
    ids.sort();
    assert_eq!(ids, vec!["b".to_string(), "c".to_string()]);
}

#[test]
fn wall_clock_stamps_are_well_formed() {
    let mut cp = make_control_plane();
    cp.register(make_node("a"));
    match &cp.take_events()[0] {
        ControlEvent::NodeRegistered { timestamp, .. } => {
            assert!(timestamp.nanos < 1_000_000_000);
            assert!(timestamp.secs > 1_600_000_000);
        }
        other => panic!("unexpected event {other:?}"),
    }
}
