//! Control plane for multi-node orchestration.
//!
//! Tracks registered nodes with their capabilities and health status, and
//! queues the control events that each change produces.

use std::collections::HashMap;
use vstd::prelude::*;
use crate::gateway::clock::{utc_now, Timestamp};
use crate::gateway::text::str_equals;

verus! {

// ---------------------------------------------------------------------------
// Types
// ---------------------------------------------------------------------------

/// Capabilities that a node can advertise.
#[derive(Debug, Clone, PartialEq, Eq, Hash)]
pub enum NodeCapability {
    /// Can run LLM provider inference
    Inference,
    /// Can execute tools (shell, file, etc.)
    ToolExecution,
    /// Has hardware peripherals attached
    Hardware,
    /// Can serve as a gateway
    Gateway,
    /// Has memory/storage backend
    Storage,
    /// Custom capability
    Custom(String),
}

/// Health status of a node.
#[derive(Debug, Clone, Copy, PartialEq, Eq, Structural)]
pub enum NodeStatus {
    /// Node is healthy and responding
    Healthy,
    /// Node has missed recent heartbeats
    Degraded,
    /// Node is not responding
    Unreachable,
    /// Node is intentionally offline
    Offline,
}

/// Extended information about a registered node.
#[derive(Debug, Clone)]
pub struct NodeInfo {
    /// Unique node identifier
    pub id: String,
    /// Human-readable node name
    pub name: Option<String>,
    /// Node's advertised address (host:port)
    pub address: Option<String>,
    /// Node version
    pub version: Option<String>,
    /// Capabilities the node supports
    pub capabilities: Vec<NodeCapability>,
    /// Current health status
    pub status: NodeStatus,
    /// When this node was first registered
    pub registered_at: Timestamp,
    /// Last successful heartbeat
    pub last_heartbeat: Timestamp,
    /// Consecutive missed heartbeats
    pub missed_heartbeats: u32,
    /// Arbitrary metadata
    pub metadata: HashMap<String, String>,
}

/// Events emitted by the control plane.
#[derive(Debug, Clone)]
pub enum ControlEvent {
    /// A node registered
    NodeRegistered {
        node_id: String,
        name: Option<String>,
        capabilities: Vec<NodeCapability>,
        timestamp: Timestamp,
    },
    /// A node was deregistered
    NodeDeregistered { node_id: String, timestamp: Timestamp },
    /// A node's status changed
    NodeStatusChanged {
        node_id: String,
        old_status: NodeStatus,
        new_status: NodeStatus,
        timestamp: Timestamp,
    },
    /// A node sent a heartbeat
    NodeHeartbeat { node_id: String, timestamp: Timestamp },
}

/// The control plane manages node lifecycle and health.
///
/// Every change queues the control events it produces; `take_events` hands
/// them out, in the order in which they were produced, for publication.
pub struct ControlPlane {
    nodes: Vec<NodeInfo>,
    max_nodes: usize,
    /// How many missed heartbeats before marking degraded
    degraded_threshold: u32,
    /// How many missed heartbeats before marking unreachable
    unreachable_threshold: u32,
    events: Vec<ControlEvent>,
}

// ---------------------------------------------------------------------------
// Mathematical model
// ---------------------------------------------------------------------------

/// A node's information, as mathematical values.
pub struct NodeInfoView {
    pub id: Seq<char>,
    pub name: Option<Seq<char>>,
    pub address: Option<Seq<char>>,
    pub version: Option<Seq<char>>,
    pub capabilities: Seq<NodeCapability>,
    pub status: NodeStatus,
    pub registered_at: Timestamp,
    pub last_heartbeat: Timestamp,
    pub missed_heartbeats: u32,
    pub metadata: Map<String, String>,
}

impl View for NodeInfo {
    type V = NodeInfoView;

    open spec fn view(&self) -> NodeInfoView {
        NodeInfoView {
            id: self.id@,
            name: self.name.deep_view(),
            address: self.address.deep_view(),
            version: self.version.deep_view(),
            capabilities: self.capabilities@,
            status: self.status,
            registered_at: self.registered_at,
            last_heartbeat: self.last_heartbeat,
            missed_heartbeats: self.missed_heartbeats,
            metadata: self.metadata@,
        }
    }
}

/// A control event, as mathematical values.
pub enum ControlEventView {
    NodeRegistered {
        node_id: Seq<char>,
        name: Option<Seq<char>>,
        capabilities: Seq<NodeCapability>,
        timestamp: Timestamp,
    },
    NodeDeregistered { node_id: Seq<char>, timestamp: Timestamp },
    NodeStatusChanged {
        node_id: Seq<char>,
        old_status: NodeStatus,
        new_status: NodeStatus,
        timestamp: Timestamp,
    },
    NodeHeartbeat { node_id: Seq<char>, timestamp: Timestamp },
}

impl View for ControlEvent {
    type V = ControlEventView;

    open spec fn view(&self) -> ControlEventView {
        match self {
            ControlEvent::NodeRegistered { node_id, name, capabilities, timestamp } =>
                ControlEventView::NodeRegistered {
                node_id: node_id@,
                name: name.deep_view(),
                capabilities: capabilities@,
                timestamp: *timestamp,
            },
            ControlEvent::NodeDeregistered { node_id, timestamp } =>
                ControlEventView::NodeDeregistered { node_id: node_id@, timestamp: *timestamp },
            ControlEvent::NodeStatusChanged { node_id, old_status, new_status, timestamp } =>
                ControlEventView::NodeStatusChanged {
                node_id: node_id@,
                old_status: *old_status,
                new_status: *new_status,
                timestamp: *timestamp,
            },
            ControlEvent::NodeHeartbeat { node_id, timestamp } =>
                ControlEventView::NodeHeartbeat { node_id: node_id@, timestamp: *timestamp },
        }
    }
}

/// The control plane, as mathematical values: the registered nodes keyed by
/// id, the capacity, the two thresholds, and the queued events.
#[verifier::ext_equal]
pub struct ControlPlaneView {
    pub nodes: Map<Seq<char>, NodeInfoView>,
    pub max_nodes: nat,
    pub degraded_threshold: u32,
    pub unreachable_threshold: u32,
    pub events: Seq<ControlEventView>,
}

/// The status that `missed` consecutive missed heartbeats give a node
/// that is not offline.
pub open spec fn status_for_missed(missed: int, degraded: u32, unreachable: u32) -> NodeStatus {
    if missed >= unreachable {
        NodeStatus::Unreachable
    } else if missed >= degraded {
        NodeStatus::Degraded
    } else {
        NodeStatus::Healthy
    }
}

/// One health tick applied to one node: an offline node is left alone;
/// any other misses one more heartbeat and takes the status that gives.
pub open spec fn tick_node(n: NodeInfoView, degraded: u32, unreachable: u32) -> NodeInfoView {
    if n.status == NodeStatus::Offline {
        n
    } else {
        let missed = n.missed_heartbeats + 1;
        NodeInfoView {
            missed_heartbeats: missed as u32,
            status: status_for_missed(missed, degraded, unreachable),
            ..n
        }
    }
}

/// Whether a health tick can count one more missed heartbeat for every node
/// that is not offline without leaving `u32`.
pub open spec fn tick_fits(s: ControlPlaneView) -> bool {
    forall|k: Seq<char>| #[trigger]
        s.nodes.contains_key(k) && s.nodes[k].status != NodeStatus::Offline
            ==> s.nodes[k].missed_heartbeats < u32::MAX
}

/// The state after a health tick.
pub open spec fn tick_step(s: ControlPlaneView) -> ControlPlaneView {
    ControlPlaneView {
        nodes: s.nodes.map_values(
            |n: NodeInfoView| tick_node(n, s.degraded_threshold, s.unreachable_threshold),
        ),
        ..s
    }
}

/// Registering `info` at time `now`: refused (state unchanged, `false`) when
/// the plane is full and `info.id` is not registered yet; otherwise the node
/// is stored under its id, replacing any earlier entry, and a
/// `NodeRegistered` event is queued.
pub open spec fn register_step(s: ControlPlaneView, info: NodeInfoView, now: Timestamp) -> (
    ControlPlaneView,
    bool,
) {
    if s.nodes.len() >= s.max_nodes && !s.nodes.contains_key(info.id) {
        (s, false)
    } else {
        let event = ControlEventView::NodeRegistered {
            node_id: info.id,
            name: info.name,
            capabilities: info.capabilities,
            timestamp: now,
        };
        (
            ControlPlaneView {
                nodes: s.nodes.insert(info.id, info),
                events: s.events.push(event),
                ..s
            },
            true,
        )
    }
}

/// Deregistering `id` at time `now`: removes the node and queues a
/// `NodeDeregistered` event if it was registered; otherwise changes nothing.
pub open spec fn deregister_step(s: ControlPlaneView, id: Seq<char>, now: Timestamp) -> (
    ControlPlaneView,
    bool,
) {
    if s.nodes.contains_key(id) {
        let event = ControlEventView::NodeDeregistered { node_id: id, timestamp: now };
        (ControlPlaneView { nodes: s.nodes.remove(id), events: s.events.push(event), ..s }, true)
    } else {
        (s, false)
    }
}

/// The events a heartbeat of `id` queues, given the node's status before
/// it: a status change stamped `changed_at` (when it was not healthy), then
/// the heartbeat event stamped `beat_at`.
pub open spec fn heartbeat_events(
    id: Seq<char>,
    old_status: NodeStatus,
    changed_at: Timestamp,
    beat_at: Timestamp,
) -> Seq<ControlEventView> {
    let beat = ControlEventView::NodeHeartbeat { node_id: id, timestamp: beat_at };
    if old_status != NodeStatus::Healthy {
        seq![
            ControlEventView::NodeStatusChanged {
                node_id: id,
                old_status,
                new_status: NodeStatus::Healthy,
                timestamp: changed_at,
            },
            beat,
        ]
    } else {
        seq![beat]
    }
}

/// A heartbeat of `id`: for a registered node, records `recorded_at` as its
/// last heartbeat, clears the missed count, marks it healthy, and queues a
/// status change stamped `changed_at` (if it was not healthy) and a
/// heartbeat event stamped `beat_at`; otherwise changes nothing.
pub open spec fn heartbeat_step(
    s: ControlPlaneView,
    id: Seq<char>,
    recorded_at: Timestamp,
    changed_at: Timestamp,
    beat_at: Timestamp,
) -> (ControlPlaneView, bool) {
    if s.nodes.contains_key(id) {
        let old = s.nodes[id];
        let node = NodeInfoView {
            last_heartbeat: recorded_at,
            missed_heartbeats: 0,
            status: NodeStatus::Healthy,
            ..old
        };
        (
            ControlPlaneView {
                nodes: s.nodes.insert(id, node),
                events: s.events + heartbeat_events(id, old.status, changed_at, beat_at),
                ..s
            },
            true,
        )
    } else {
        (s, false)
    }
}

// ---------------------------------------------------------------------------
// Nodes stored in a sequence, seen as a map keyed by id
// ---------------------------------------------------------------------------

spec fn distinct_ids(s: Seq<NodeInfoView>) -> bool {
    forall|i: int, j: int|
        #![trigger s[i], s[j]]
        0 <= i < s.len() && 0 <= j < s.len() && i != j ==> s[i].id != s[j].id
}

spec fn has_id(s: Seq<NodeInfoView>, k: Seq<char>) -> bool {
    exists|i: int| 0 <= i < s.len() && #[trigger] s[i].id == k
}

spec fn id_map(s: Seq<NodeInfoView>) -> Map<Seq<char>, NodeInfoView> {
    Map::new(
        |k: Seq<char>| has_id(s, k),
        |k: Seq<char>| s[choose|i: int| 0 <= i < s.len() && #[trigger] s[i].id == k],
    )
}

proof fn lemma_id_map_at(s: Seq<NodeInfoView>, i: int)
    requires
        distinct_ids(s),
        0 <= i < s.len(),
    ensures
        id_map(s).contains_key(s[i].id),
        id_map(s)[s[i].id] == s[i],
{
    let k = s[i].id;
    assert(has_id(s, k));
    let j = choose|j: int| 0 <= j < s.len() && #[trigger] s[j].id == k;
    assert(s[j].id == k);
    assert(j == i);
}

/// `m` is the map of `s` when it holds each element under its id and no other key.
proof fn lemma_id_map_ext(s: Seq<NodeInfoView>, m: Map<Seq<char>, NodeInfoView>)
    requires
        distinct_ids(s),
        forall|i: int|
            #![trigger s[i]]
            0 <= i < s.len() ==> m.contains_key(s[i].id) && m[s[i].id] == s[i],
        forall|k: Seq<char>| #[trigger] m.contains_key(k) ==> has_id(s, k),
    ensures
        id_map(s) == m,
{
    assert forall|k: Seq<char>| id_map(s).contains_key(k) <==> m.contains_key(k) by {
        if has_id(s, k) {
            let i = choose|i: int| 0 <= i < s.len() && #[trigger] s[i].id == k;
            assert(s[i].id == k);
        }
    }
    assert forall|k: Seq<char>| id_map(s).contains_key(k) implies id_map(s)[k] == m[k] by {
        let i = choose|i: int| 0 <= i < s.len() && #[trigger] s[i].id == k;
        assert(s[i].id == k);
        lemma_id_map_at(s, i);
    }
    assert(id_map(s) =~= m);
}

proof fn lemma_id_map_push(s: Seq<NodeInfoView>, x: NodeInfoView)
    requires
        distinct_ids(s),
        !has_id(s, x.id),
    ensures
        distinct_ids(s.push(x)),
        id_map(s.push(x)) == id_map(s).insert(x.id, x),
{
    let t = s.push(x);
    assert forall|i: int, j: int|
        0 <= i < t.len() && 0 <= j < t.len() && i != j implies #[trigger] t[i].id
        != #[trigger] t[j].id by {
        if i < s.len() && j < s.len() {
            assert(t[i] == s[i] && t[j] == s[j]);
        } else if i < s.len() {
            assert(t[i] == s[i]);
        } else {
            assert(t[j] == s[j]);
        }
    }
    let m = id_map(s).insert(x.id, x);
    assert forall|i: int| #![trigger t[i]] 0 <= i < t.len() implies m.contains_key(t[i].id)
        && m[t[i].id] == t[i] by {
        if i < s.len() {
            assert(t[i] == s[i]);
            lemma_id_map_at(s, i);
        }
    }
    assert forall|k: Seq<char>| #[trigger] m.contains_key(k) implies has_id(t, k) by {
        if k == x.id {
            assert(t[s.len() as int].id == k);
        } else {
            let i = choose|i: int| 0 <= i < s.len() && #[trigger] s[i].id == k;
            assert(t[i].id == k);
        }
    }
    lemma_id_map_ext(t, m);
}

proof fn lemma_id_map_update(s: Seq<NodeInfoView>, i0: int, x: NodeInfoView)
    requires
        distinct_ids(s),
        0 <= i0 < s.len(),
        s[i0].id == x.id,
    ensures
        distinct_ids(s.update(i0, x)),
        id_map(s.update(i0, x)) == id_map(s).insert(x.id, x),
{
    let t = s.update(i0, x);
    assert forall|i: int, j: int|
        0 <= i < t.len() && 0 <= j < t.len() && i != j implies #[trigger] t[i].id
        != #[trigger] t[j].id by {
        assert(s[i].id != s[j].id);
    }
    let m = id_map(s).insert(x.id, x);
    assert forall|i: int| #![trigger t[i]] 0 <= i < t.len() implies m.contains_key(t[i].id)
        && m[t[i].id] == t[i] by {
        if i != i0 {
            assert(s[i].id != s[i0].id);
            lemma_id_map_at(s, i);
        }
    }
    assert forall|k: Seq<char>| #[trigger] m.contains_key(k) implies has_id(t, k) by {
        if k == x.id {
            assert(t[i0].id == k);
        } else {
            let i = choose|i: int| 0 <= i < s.len() && #[trigger] s[i].id == k;
            assert(t[i].id == k);
        }
    }
    lemma_id_map_ext(t, m);
}

proof fn lemma_id_map_remove(s: Seq<NodeInfoView>, i0: int)
    requires
        distinct_ids(s),
        0 <= i0 < s.len(),
    ensures
        distinct_ids(s.remove(i0)),
        id_map(s.remove(i0)) == id_map(s).remove(s[i0].id),
{
    let t = s.remove(i0);
    assert forall|i: int, j: int|
        0 <= i < t.len() && 0 <= j < t.len() && i != j implies #[trigger] t[i].id
        != #[trigger] t[j].id by {
        let si = if i < i0 { i } else { i + 1 };
        let sj = if j < i0 { j } else { j + 1 };
        assert(t[i] == s[si] && t[j] == s[sj]);
    }
    let m = id_map(s).remove(s[i0].id);
    assert forall|i: int| #![trigger t[i]] 0 <= i < t.len() implies m.contains_key(t[i].id)
        && m[t[i].id] == t[i] by {
        let si = if i < i0 { i } else { i + 1 };
        assert(t[i] == s[si]);
        assert(s[si].id != s[i0].id);
        lemma_id_map_at(s, si);
    }
    assert forall|k: Seq<char>| #[trigger] m.contains_key(k) implies has_id(t, k) by {
        let i = choose|i: int| 0 <= i < s.len() && #[trigger] s[i].id == k;
        assert(s[i].id == k);
        assert(i != i0);
        if i < i0 {
            assert(t[i] == s[i]);
        } else {
            assert(t[i - 1] == s[i]);
        }
    }
    lemma_id_map_ext(t, m);
}

proof fn lemma_id_map_tick(s: Seq<NodeInfoView>, d: u32, u: u32)
    requires
        distinct_ids(s),
    ensures
        distinct_ids(s.map_values(|n: NodeInfoView| tick_node(n, d, u))),
        id_map(s.map_values(|n: NodeInfoView| tick_node(n, d, u))) == id_map(s).map_values(
            |n: NodeInfoView| tick_node(n, d, u),
        ),
{
    let f = |n: NodeInfoView| tick_node(n, d, u);
    let t = s.map_values(f);
    assert forall|i: int, j: int|
        0 <= i < t.len() && 0 <= j < t.len() && i != j implies #[trigger] t[i].id
        != #[trigger] t[j].id by {
        assert(s[i].id != s[j].id);
    }
    let m = id_map(s).map_values(f);
    assert forall|i: int| #![trigger t[i]] 0 <= i < t.len() implies m.contains_key(t[i].id)
        && m[t[i].id] == t[i] by {
        lemma_id_map_at(s, i);
    }
    assert forall|k: Seq<char>| #[trigger] m.contains_key(k) implies has_id(t, k) by {
        let i = choose|i: int| 0 <= i < s.len() && #[trigger] s[i].id == k;
        assert(t[i].id == k);
    }
    lemma_id_map_ext(t, m);
}

proof fn lemma_id_map_len(s: Seq<NodeInfoView>)
    requires
        distinct_ids(s),
    ensures
        id_map(s).dom().finite(),
        id_map(s).len() == s.len(),
    decreases s.len(),
{
    if s.len() == 0 {
        lemma_id_map_ext(s, Map::empty());
    } else {
        let p = s.drop_last();
        assert(distinct_ids(p)) by {
            assert forall|i: int, j: int|
                0 <= i < p.len() && 0 <= j < p.len() && i != j implies #[trigger] p[i].id
                != #[trigger] p[j].id by {
                assert(s[i].id != s[j].id);
            }
        }
        assert(!has_id(p, s.last().id)) by {
            if has_id(p, s.last().id) {
                let i = choose|i: int| 0 <= i < p.len() && #[trigger] p[i].id == s.last().id;
                assert(s[i].id == s[s.len() - 1].id);
            }
        }
        lemma_id_map_len(p);
        lemma_id_map_push(p, s.last());
        assert(p.push(s.last()) =~= s);
    }
}

// ---------------------------------------------------------------------------
// Copies
// ---------------------------------------------------------------------------

fn copy_string(s: &String) -> (r: String)
    ensures
        r@ == s@,
{
    s.clone()
}

fn copy_opt_string(o: &Option<String>) -> (r: Option<String>)
    ensures
        r.deep_view() == o.deep_view(),
{
    match o {
        Some(s) => Some(copy_string(s)),
        None => None,
    }
}

fn copy_capability(c: &NodeCapability) -> (r: NodeCapability)
    ensures
        r == *c,
{
    match c {
        NodeCapability::Inference => NodeCapability::Inference,
        NodeCapability::ToolExecution => NodeCapability::ToolExecution,
        NodeCapability::Hardware => NodeCapability::Hardware,
        NodeCapability::Gateway => NodeCapability::Gateway,
        NodeCapability::Storage => NodeCapability::Storage,
        NodeCapability::Custom(s) => NodeCapability::Custom(s.clone()),
    }
}

fn copy_capabilities(v: &Vec<NodeCapability>) -> (r: Vec<NodeCapability>)
    ensures
        r@ == v@,
{
    let mut r: Vec<NodeCapability> = Vec::new();
    let mut i: usize = 0;
    while i < v.len()
        invariant
            i <= v@.len(),
            r@ == v@.take(i as int),
        decreases v@.len() - i,
    {
        r.push(copy_capability(&v[i]));
        i = i + 1;
        assert(r@ =~= v@.take(i as int));
    }
    assert(v@.take(v@.len() as int) =~= v@);
    r
}

fn copy_node(n: &NodeInfo) -> (r: NodeInfo)
    ensures
        r@ == n@,
{
    NodeInfo {
        id: copy_string(&n.id),
        name: copy_opt_string(&n.name),
        address: copy_opt_string(&n.address),
        version: copy_opt_string(&n.version),
        capabilities: copy_capabilities(&n.capabilities),
        status: n.status,
        registered_at: n.registered_at,
        last_heartbeat: n.last_heartbeat,
        missed_heartbeats: n.missed_heartbeats,
        metadata: n.metadata.clone(),
    }
}

// ---------------------------------------------------------------------------
// The control plane
// ---------------------------------------------------------------------------

impl ControlPlane {
    spec fn node_views(&self) -> Seq<NodeInfoView> {
        self.nodes@.map_values(|n: NodeInfo| n@)
    }

    spec fn event_views(&self) -> Seq<ControlEventView> {
        self.events@.map_values(|e: ControlEvent| e@)
    }

    /// The representation invariant: node ids are unique and the capacity
    /// is respected.
    pub closed spec fn wf(&self) -> bool {
        &&& distinct_ids(self.node_views())
        &&& self.nodes@.len() <= self.max_nodes
    }
}

impl View for ControlPlane {
    type V = ControlPlaneView;

    closed spec fn view(&self) -> ControlPlaneView {
        ControlPlaneView {
            nodes: id_map(self.node_views()),
            max_nodes: self.max_nodes as nat,
            degraded_threshold: self.degraded_threshold,
            unreachable_threshold: self.unreachable_threshold,
            events: self.event_views(),
        }
    }
}

impl ControlPlane {
    /// A control plane that holds at most `max_nodes` nodes, with no node
    /// registered yet and no event queued. A node turns degraded after 3
    /// consecutive missed heartbeats and unreachable after 10.
    pub fn new(max_nodes: usize) -> (r: Self)
        ensures
            r.wf(),
            r@.nodes == Map::<Seq<char>, NodeInfoView>::empty(),
            r@.max_nodes == max_nodes,
            r@.degraded_threshold == 3,
            r@.unreachable_threshold == 10,
            r@.events == Seq::<ControlEventView>::empty(),
    {
        let r = ControlPlane {
            nodes: Vec::new(),
            max_nodes,
            degraded_threshold: 3,
            unreachable_threshold: 10,
            events: Vec::new(),
        };
        proof {
            lemma_id_map_ext(r.node_views(), Map::empty());
            assert(r.event_views() =~= Seq::<ControlEventView>::empty());
        }
        r
    }

    /// The position of the node with id `node_id`, if one is registered.
    fn find(&self, node_id: &str) -> (r: Option<usize>)
        ensures
            match r {
                Some(i) => i < self.nodes@.len() && self.node_views()[i as int].id == node_id@,
                None => !has_id(self.node_views(), node_id@),
            },
    {
        let mut i: usize = 0;
        while i < self.nodes.len()
            invariant
                i <= self.nodes@.len(),
                forall|j: int| 0 <= j < i ==> #[trigger] self.node_views()[j].id != node_id@,
            decreases self.nodes@.len() - i,
        {
            if str_equals(self.nodes[i].id.as_str(), node_id) {
                return Some(i);
            }
            i = i + 1;
        }
        None
    }

    /// Register a new node at time `now`. Returns false if capacity is reached.
    pub fn register_at(&mut self, info: NodeInfo, now: Timestamp) -> (r: bool)
        requires
            old(self).wf(),
        ensures
            final(self).wf(),
            (final(self)@, r) == register_step(old(self)@, info@, now),
    {
        let ghost old_views = self.node_views();
        let ghost old_events = self.event_views();
        proof {
            lemma_id_map_len(old_views);
        }
        let pos = self.find(info.id.as_str());
        if self.nodes.len() >= self.max_nodes && pos.is_none() {
            return false;
        }
        let event = ControlEvent::NodeRegistered {
            node_id: copy_string(&info.id),
            name: copy_opt_string(&info.name),
            capabilities: copy_capabilities(&info.capabilities),
            timestamp: now,
        };
        let ghost info_view = info@;
        match pos {
            Some(i) => {
                self.nodes[i] = info;
                proof {
                    lemma_id_map_update(old_views, i as int, info_view);
                    assert(self.node_views() =~= old_views.update(i as int, info_view));
                }
            },
            None => {
                self.nodes.push(info);
                proof {
                    lemma_id_map_push(old_views, info_view);
                    assert(self.node_views() =~= old_views.push(info_view));
                }
            },
        }
        let ghost ev = event@;
        self.events.push(event);
        assert(self.event_views() =~= old_events.push(ev));
        true
    }

    /// Register a new node, stamped with the current time. Returns false if
    /// capacity is reached.
    pub fn register(&mut self, info: NodeInfo) -> (r: bool)
        requires
            old(self).wf(),
        ensures
            final(self).wf(),
            exists|now: Timestamp|
                now.nanos < 1_000_000_000 && (final(self)@, r) == register_step(
                    old(self)@,
                    info@,
                    now,
                ),
    {
        let now = utc_now();
        self.register_at(info, now)
    }

    /// Deregister a node by ID at time `now`.
    pub fn deregister_at(&mut self, node_id: &str, now: Timestamp) -> (r: bool)
        requires
            old(self).wf(),
        ensures
            final(self).wf(),
            (final(self)@, r) == deregister_step(old(self)@, node_id@, now),
    {
        let ghost old_views = self.node_views();
        let ghost old_events = self.event_views();
        match self.find(node_id) {
            Some(i) => {
                let _removed = self.nodes.remove(i);
                proof {
                    lemma_id_map_remove(old_views, i as int);
                    assert(self.node_views() =~= old_views.remove(i as int));
                }
                let event = ControlEvent::NodeDeregistered {
                    node_id: node_id.to_owned(),
                    timestamp: now,
                };
                let ghost ev = event@;
                self.events.push(event);
                assert(self.event_views() =~= old_events.push(ev));
                true
            },
            None => false,
        }
    }

    /// Deregister a node by ID, stamped with the current time.
    pub fn deregister(&mut self, node_id: &str) -> (r: bool)
        requires
            old(self).wf(),
        ensures
            final(self).wf(),
            exists|now: Timestamp|
                now.nanos < 1_000_000_000 && (final(self)@, r) == deregister_step(
                    old(self)@,
                    node_id@,
                    now,
                ),
    {
        let now = utc_now();
        self.deregister_at(node_id, now)
    }

    /// Record a heartbeat from a node: `recorded_at` becomes its last
    /// heartbeat, `changed_at` stamps the status change (queued only when it
    /// was not healthy), and `beat_at` stamps the heartbeat event.
    pub fn heartbeat_at(
        &mut self,
        node_id: &str,
        recorded_at: Timestamp,
        changed_at: Timestamp,
        beat_at: Timestamp,
    ) -> (r: bool)
        requires
            old(self).wf(),
        ensures
            final(self).wf(),
            (final(self)@, r) == heartbeat_step(
                old(self)@,
                node_id@,
                recorded_at,
                changed_at,
                beat_at,
            ),
    {
        let ghost old_views = self.node_views();
        let ghost old_events = self.event_views();
        match self.find(node_id) {
            Some(i) => {
                let old_status = self.nodes[i].status;
                proof {
                    lemma_id_map_at(old_views, i as int);
                }
                self.nodes[i].last_heartbeat = recorded_at;
                self.nodes[i].missed_heartbeats = 0;
                self.nodes[i].status = NodeStatus::Healthy;
                let ghost new_view = self.nodes@[i as int]@;
                proof {
                    lemma_id_map_update(old_views, i as int, new_view);
                    assert(self.node_views() =~= old_views.update(i as int, new_view));
                }
                if old_status != NodeStatus::Healthy {
                    let changed = ControlEvent::NodeStatusChanged {
                        node_id: node_id.to_owned(),
                        old_status,
                        new_status: NodeStatus::Healthy,
                        timestamp: changed_at,
                    };
                    self.events.push(changed);
                }
                let beat = ControlEvent::NodeHeartbeat {
                    node_id: node_id.to_owned(),
                    timestamp: beat_at,
                };
                self.events.push(beat);
                assert(self.event_views() =~= old_events + heartbeat_events(
                    node_id@,
                    old_status,
                    changed_at,
                    beat_at,
                ));
                true
            },
            None => false,
        }
    }

    /// Record a heartbeat from a node. The clock is read once for the
    /// node's last heartbeat, once for the status change event and once for
    /// the heartbeat event.
    pub fn heartbeat(&mut self, node_id: &str) -> (r: bool)
        requires
            old(self).wf(),
        ensures
            final(self).wf(),
            exists|recorded_at: Timestamp, changed_at: Timestamp, beat_at: Timestamp|
                recorded_at.nanos < 1_000_000_000 && changed_at.nanos < 1_000_000_000
                    && beat_at.nanos < 1_000_000_000 && (final(self)@, r) == heartbeat_step(
                    old(self)@,
                    node_id@,
                    recorded_at,
                    changed_at,
                    beat_at,
                ),
    {
        let recorded_at = utc_now();
        let changed_at = utc_now();
        let beat_at = utc_now();
        self.heartbeat_at(node_id, recorded_at, changed_at, beat_at)
    }

    /// List all registered nodes.
    pub fn list_nodes(&self) -> (r: Vec<NodeInfo>)
        requires
            self.wf(),
        ensures
            r@.len() == self@.nodes.len(),
            forall|i: int|
                #![trigger r@[i]]
                0 <= i < r@.len() ==> self@.nodes.contains_key(r@[i]@.id) && self@.nodes[r@[i]@.id]
                    == r@[i]@,
            forall|i: int, j: int|
                #![trigger r@[i], r@[j]]
                0 <= i < r@.len() && 0 <= j < r@.len() && i != j ==> r@[i]@.id != r@[j]@.id,
    {
        let ghost views = self.node_views();
        proof {
            lemma_id_map_len(views);
        }
        let mut r: Vec<NodeInfo> = Vec::new();
        let mut i: usize = 0;
        while i < self.nodes.len()
            invariant
                i <= self.nodes@.len(),
                views == self.node_views(),
                r@.len() == i,
                forall|j: int| #![trigger r@[j]] 0 <= j < i ==> r@[j]@ == views[j],
            decreases self.nodes@.len() - i,
        {
            r.push(copy_node(&self.nodes[i]));
            i = i + 1;
        }
        assert forall|j: int| #![trigger r@[j]] 0 <= j < r@.len() implies self@.nodes.contains_key(
            r@[j]@.id,
        ) && self@.nodes[r@[j]@.id] == r@[j]@ by {
            lemma_id_map_at(views, j);
        }
        assert forall|a: int, b: int|
            #![trigger r@[a], r@[b]]
            0 <= a < r@.len() && 0 <= b < r@.len() && a != b implies r@[a]@.id != r@[b]@.id by {
            assert(views[a].id != views[b].id);
        }
        r
    }

    /// Get a specific node by ID.
    pub fn get_node(&self, node_id: &str) -> (r: Option<NodeInfo>)
        requires
            self.wf(),
        ensures
            match r {
                Some(n) => self@.nodes.contains_key(node_id@) && n@ == self@.nodes[node_id@],
                None => !self@.nodes.contains_key(node_id@),
            },
    {
        match self.find(node_id) {
            Some(i) => {
                proof {
                    lemma_id_map_at(self.node_views(), i as int);
                }
                Some(copy_node(&self.nodes[i]))
            },
            None => None,
        }
    }

    /// Health monitor tick — increment missed heartbeats and update statuses.
    /// Should be called periodically (e.g., every 30s).
    pub fn health_tick(&mut self)
        requires
            old(self).wf(),
            tick_fits(old(self)@),
        ensures
            final(self).wf(),
            final(self)@ == tick_step(old(self)@),
    {
        let ghost old_views = self.node_views();
        let degraded = self.degraded_threshold;
        let unreachable = self.unreachable_threshold;
        let n = self.nodes.len();
        assert forall|j: int|
            0 <= j < n && (#[trigger] old_views[j]).status != NodeStatus::Offline implies old_views[j].missed_heartbeats
            < u32::MAX by {
            lemma_id_map_at(old_views, j);
            assert(old(self)@.nodes.contains_key(old_views[j].id));
        }
        let mut i: usize = 0;
        while i < n
            invariant
                n == self.nodes@.len() == old_views.len(),
                i <= n,
                self.max_nodes == old(self).max_nodes,
                self.events@ == old(self).events@,
                self.degraded_threshold == old(self).degraded_threshold,
                self.unreachable_threshold == old(self).unreachable_threshold,
                degraded == self.degraded_threshold,
                unreachable == self.unreachable_threshold,
                forall|j: int|
                    0 <= j < n && (#[trigger] old_views[j]).status != NodeStatus::Offline
                        ==> old_views[j].missed_heartbeats < u32::MAX,
                forall|j: int|
                    0 <= j < i ==> #[trigger] self.node_views()[j] == tick_node(
                        old_views[j],
                        degraded,
                        unreachable,
                    ),
                forall|j: int| i <= j < n ==> #[trigger] self.node_views()[j] == old_views[j],
            decreases n - i,
        {
            assert(self.node_views()[i as int] == old_views[i as int]);
            let ghost prev = self.nodes@;
            let ghost prev_views = self.node_views();
            if self.nodes[i].status != NodeStatus::Offline {
                let missed = self.nodes[i].missed_heartbeats + 1;
                let old_status = self.nodes[i].status;
                let new_status = if missed >= unreachable {
                    NodeStatus::Unreachable
                } else if missed >= degraded {
                    NodeStatus::Degraded
                } else {
                    NodeStatus::Healthy
                };
                self.nodes[i].missed_heartbeats = missed;
                if old_status != new_status {
                    self.nodes[i].status = new_status;
                }
            }
            assert(self.node_views()[i as int] == tick_node(old_views[i as int], degraded, unreachable));
            assert forall|j: int| 0 <= j < n && j != i implies #[trigger] self.node_views()[j]
                == prev_views[j] by {
                assert(self.nodes@[j] == prev[j]);
            }
            i = i + 1;
        }
        proof {
            let f = |v: NodeInfoView| tick_node(v, degraded, unreachable);
            assert(self.node_views() =~= old_views.map_values(f));
            lemma_id_map_tick(old_views, degraded, unreachable);
            assert(self@.nodes =~= tick_step(old(self)@).nodes);
        }
    }

    /// Node count.
    pub fn node_count(&self) -> (r: usize)
        requires
            self.wf(),
        ensures
            r == self@.nodes.len(),
    {
        proof {
            lemma_id_map_len(self.node_views());
        }
        self.nodes.len()
    }

    /// Hands out the queued events, oldest first, and empties the queue.
    pub fn take_events(&mut self) -> (r: Vec<ControlEvent>)
        requires
            old(self).wf(),
        ensures
            final(self).wf(),
            r@.map_values(|e: ControlEvent| e@) == old(self)@.events,
            final(self)@ == (ControlPlaneView { events: Seq::empty(), ..old(self)@ }),
    {
        let mut taken: Vec<ControlEvent> = Vec::new();
        std::mem::swap(&mut taken, &mut self.events);
        assert(self.event_views() =~= Seq::<ControlEventView>::empty());
        taken
    }
}

// ---------------------------------------------------------------------------
// Laws
// ---------------------------------------------------------------------------

/// A well-formed control plane holds finitely many nodes, never more than
/// its capacity; every operation above keeps it well-formed.
pub proof fn law_capacity_respected(cp: &ControlPlane)
    requires
        cp.wf(),
    ensures
        cp@.nodes.dom().finite(),
        cp@.nodes.len() <= cp@.max_nodes,
{
    lemma_id_map_len(cp.node_views());
}

/// Registration succeeds exactly when there is room or the id is already
/// registered; a successful registration stores the node under its id
/// (a later lookup returns it), keeps the capacity, and leaves every other
/// node as it was.
pub proof fn law_register_then_get(s: ControlPlaneView, info: NodeInfoView, now: Timestamp)
    requires
        s.nodes.dom().finite(),
        s.nodes.len() <= s.max_nodes,
    ensures
        register_step(s, info, now).1 <==> (s.nodes.len() < s.max_nodes || s.nodes.contains_key(
            info.id,
        )),
        register_step(s, info, now).1 ==> register_step(s, info, now).0.nodes.contains_key(info.id)
            && register_step(s, info, now).0.nodes[info.id] == info,
        register_step(s, info, now).0.nodes.len() <= s.max_nodes,
        forall|k: Seq<char>|
            k != info.id ==> (#[trigger] register_step(s, info, now).0.nodes.contains_key(k)
                == s.nodes.contains_key(k)) && (s.nodes.contains_key(k) ==> register_step(
                s,
                info,
                now,
            ).0.nodes[k] == s.nodes[k]),
{
    if s.nodes.contains_key(info.id) {
        assert(s.nodes.insert(info.id, info).dom() =~= s.nodes.dom());
    }
}

/// Deregistering a node that was just registered succeeds and removes
/// exactly that node; deregistering it again then fails and changes nothing.
pub proof fn law_register_then_deregister(
    s: ControlPlaneView,
    info: NodeInfoView,
    t1: Timestamp,
    t2: Timestamp,
    t3: Timestamp,
)
    requires
        register_step(s, info, t1).1,
    ensures
        ({
            let s1 = register_step(s, info, t1).0;
            let (s2, removed) = deregister_step(s1, info.id, t2);
            &&& removed
            &&& s2.nodes == s.nodes.remove(info.id)
            &&& deregister_step(s2, info.id, t3) == (s2, false)
        }),
{
    let s1 = register_step(s, info, t1).0;
    assert(s1.nodes.remove(info.id) =~= s.nodes.remove(info.id));
}

/// Operations on an id that is not registered change nothing and report
/// failure.
pub proof fn law_unknown_node_untouched(
    s: ControlPlaneView,
    id: Seq<char>,
    now: Timestamp,
    changed_at: Timestamp,
    beat_at: Timestamp,
)
    requires
        !s.nodes.contains_key(id),
    ensures
        heartbeat_step(s, id, now, changed_at, beat_at) == (s, false),
        deregister_step(s, id, now) == (s, false),
{
}

/// A heartbeat from a registered node makes it healthy with no missed
/// heartbeats, records the time, keeps everything else about it, and
/// reports a status change exactly when it was not healthy before.
pub proof fn law_heartbeat_restores_health(
    s: ControlPlaneView,
    id: Seq<char>,
    now: Timestamp,
    changed_at: Timestamp,
    beat_at: Timestamp,
)
    requires
        s.nodes.contains_key(id),
    ensures
        ({
            let (s1, ok) = heartbeat_step(s, id, now, changed_at, beat_at);
            let n = s1.nodes[id];
            &&& ok
            &&& s1.nodes.contains_key(id)
            &&& n.status == NodeStatus::Healthy
            &&& n.missed_heartbeats == 0
            &&& n.last_heartbeat == now
            &&& n.id == s.nodes[id].id
            &&& n.capabilities == s.nodes[id].capabilities
            &&& n.registered_at == s.nodes[id].registered_at
            &&& s1.nodes.dom() == s.nodes.dom()
            &&& s1.events.len() == s.events.len() + if s.nodes[id].status == NodeStatus::Healthy {
                1int
            } else {
                2int
            }
        }),
{
    let s1 = heartbeat_step(s, id, now, changed_at, beat_at).0;
    assert(s1.nodes.dom() =~= s.nodes.dom());
}

/// A health tick keeps the set of registered nodes, the queued events and
/// every offline node as they are, and changes no more than the missed
/// count and the status of the others.
pub proof fn law_tick_scope(s: ControlPlaneView)
    ensures
        tick_step(s).nodes.dom() == s.nodes.dom(),
        tick_step(s).events == s.events,
        tick_step(s).max_nodes == s.max_nodes,
        forall|k: Seq<char>|
            #[trigger] s.nodes.contains_key(k) && s.nodes[k].status == NodeStatus::Offline
                ==> tick_step(s).nodes[k] == s.nodes[k],
        forall|k: Seq<char>|
            #[trigger] s.nodes.contains_key(k) ==> ({
                let n = tick_step(s).nodes[k];
                &&& n.id == s.nodes[k].id
                &&& n.last_heartbeat == s.nodes[k].last_heartbeat
                &&& n.registered_at == s.nodes[k].registered_at
                &&& n.capabilities == s.nodes[k].capabilities
            }),
{
    assert(tick_step(s).nodes.dom() =~= s.nodes.dom());
}

/// The state after `k` health ticks.
pub open spec fn ticks(s: ControlPlaneView, k: nat) -> ControlPlaneView
    decreases k,
{
    if k == 0 {
        s
    } else {
        tick_step(ticks(s, (k - 1) as nat))
    }
}

/// After `k` health ticks a node that is not offline has missed `k` more
/// heartbeats and carries the status that count gives (degraded from the
/// degraded threshold on, unreachable from the unreachable one on).
pub proof fn law_ticks_count_missed(s: ControlPlaneView, id: Seq<char>, k: nat)
    requires
        s.nodes.contains_key(id),
        s.nodes[id].status != NodeStatus::Offline,
        s.nodes[id].missed_heartbeats + k <= u32::MAX,
    ensures
        ticks(s, k).nodes.contains_key(id),
        ticks(s, k).nodes[id].missed_heartbeats == s.nodes[id].missed_heartbeats + k,
        ticks(s, k).degraded_threshold == s.degraded_threshold,
        ticks(s, k).unreachable_threshold == s.unreachable_threshold,
        k > 0 ==> ticks(s, k).nodes[id].status == status_for_missed(
            s.nodes[id].missed_heartbeats + k,
            s.degraded_threshold,
            s.unreachable_threshold,
        ),
        k == 0 ==> ticks(s, k).nodes[id].status == s.nodes[id].status,
        k > 0 && s.nodes[id].missed_heartbeats + k >= s.unreachable_threshold ==> ticks(
            s,
            k,
        ).nodes[id].status == NodeStatus::Unreachable,
        k > 0 && s.degraded_threshold <= s.nodes[id].missed_heartbeats + k
            < s.unreachable_threshold ==> ticks(s, k).nodes[id].status == NodeStatus::Degraded,
        k > 0 && s.nodes[id].missed_heartbeats + k < s.degraded_threshold
            && s.nodes[id].missed_heartbeats + k < s.unreachable_threshold ==> ticks(
            s,
            k,
        ).nodes[id].status == NodeStatus::Healthy,
    decreases k,
{
    if k > 0 {
        law_ticks_count_missed(s, id, (k - 1) as nat);
        let p = ticks(s, (k - 1) as nat);
        assert(p.nodes[id].status != NodeStatus::Offline) by {
            if k - 1 > 0 {
                let m = s.nodes[id].missed_heartbeats + k - 1;
                assert(status_for_missed(m, s.degraded_threshold, s.unreachable_threshold)
                    != NodeStatus::Offline);
            }
        }
    }
}

/// Registration, spelled out for every state: it succeeds exactly when
/// there is room or the id is already registered. A refused registration
/// changes nothing at all. A successful one stores the node under its id,
/// keeps every other node, keeps the capacity and the thresholds, and queues
/// exactly one event, a `NodeRegistered` for that node stamped `now`, after
/// the events already queued.
pub proof fn law_register_exact(s: ControlPlaneView, info: NodeInfoView, now: Timestamp)
    requires
        s.nodes.dom().finite(),
    ensures
        ({
            let (s1, ok) = register_step(s, info, now);
            &&& ok == (s.nodes.len() < s.max_nodes || s.nodes.contains_key(info.id))
            &&& !ok ==> s1 == s
            &&& s1.max_nodes == s.max_nodes
            &&& s1.degraded_threshold == s.degraded_threshold
            &&& s1.unreachable_threshold == s.unreachable_threshold
            &&& s.nodes.len() <= s.max_nodes ==> s1.nodes.len() <= s.max_nodes
            &&& ok ==> {
                &&& s1.nodes.dom() == s.nodes.dom().insert(info.id)
                &&& s1.nodes[info.id] == info
                &&& forall|k: Seq<char>|
                    k != info.id && #[trigger] s.nodes.contains_key(k) ==> s1.nodes[k]
                        == s.nodes[k]
                &&& s1.events.len() == s.events.len() + 1
                &&& s1.events.take(s.events.len() as int) == s.events
                &&& s1.events.last() == ControlEventView::NodeRegistered {
                    node_id: info.id,
                    name: info.name,
                    capabilities: info.capabilities,
                    timestamp: now,
                }
            }
        }),
{
    let (s1, ok) = register_step(s, info, now);
    if ok {
        assert(s1.nodes.dom() =~= s.nodes.dom().insert(info.id));
        assert(s1.events.take(s.events.len() as int) =~= s.events);
        if s.nodes.contains_key(info.id) {
            assert(s.nodes.insert(info.id, info).dom() =~= s.nodes.dom());
        }
    }
}

/// Deregistration, spelled out for every state, whatever events are queued:
/// it succeeds exactly when the id is registered; the id is no longer
/// registered afterwards and every other node is kept as it was; the
/// capacity and thresholds are kept; a success queues exactly one
/// `NodeDeregistered` event for the id stamped `now`, and a failure changes
/// nothing.
pub proof fn law_deregister_exact(s: ControlPlaneView, id: Seq<char>, now: Timestamp)
    ensures
        ({
            let (s1, ok) = deregister_step(s, id, now);
            &&& ok == s.nodes.contains_key(id)
            &&& s1.nodes == s.nodes.remove(id)
            &&& !s1.nodes.contains_key(id)
            &&& s1.nodes.dom() == s.nodes.dom().remove(id)
            &&& forall|k: Seq<char>|
                k != id && #[trigger] s.nodes.contains_key(k) ==> s1.nodes[k] == s.nodes[k]
            &&& s1.max_nodes == s.max_nodes
            &&& s1.degraded_threshold == s.degraded_threshold
            &&& s1.unreachable_threshold == s.unreachable_threshold
            &&& !ok ==> s1 == s
            &&& ok ==> s1.events == s.events.push(
                ControlEventView::NodeDeregistered { node_id: id, timestamp: now },
            )
        }),
{
    let (s1, ok) = deregister_step(s, id, now);
    assert(s1.nodes.dom() =~= s.nodes.dom().remove(id));
    if !ok {
        assert(s.nodes.remove(id) =~= s.nodes);
    }
}

/// A heartbeat, spelled out for every state: it succeeds exactly when the
/// id is registered, and a failure changes nothing. On success only that
/// node changes: it becomes healthy with no missed heartbeats and
/// `recorded_at` as its last heartbeat, and keeps its id, name, address,
/// version, capabilities, registration time and metadata; every other node
/// is kept exactly as it was; the capacity and thresholds are kept; the
/// queue gains a status change from the old status to healthy stamped
/// `changed_at` when the node was not healthy, then a heartbeat event
/// stamped `beat_at`.
pub proof fn law_heartbeat_exact(
    s: ControlPlaneView,
    id: Seq<char>,
    recorded_at: Timestamp,
    changed_at: Timestamp,
    beat_at: Timestamp,
)
    ensures
        ({
            let (s1, ok) = heartbeat_step(s, id, recorded_at, changed_at, beat_at);
            &&& ok == s.nodes.contains_key(id)
            &&& !ok ==> s1 == s
            &&& s1.max_nodes == s.max_nodes
            &&& s1.degraded_threshold == s.degraded_threshold
            &&& s1.unreachable_threshold == s.unreachable_threshold
            &&& s1.nodes.dom() == s.nodes.dom()
            &&& forall|k: Seq<char>|
                k != id && #[trigger] s.nodes.contains_key(k) ==> s1.nodes[k] == s.nodes[k]
            &&& ok ==> {
                let n = s.nodes[id];
                let n1 = s1.nodes[id];
                let base = s.events.len();
                let changed = n.status != NodeStatus::Healthy;
                &&& n1.status == NodeStatus::Healthy
                &&& n1.missed_heartbeats == 0
                &&& n1.last_heartbeat == recorded_at
                &&& n1.id == n.id
                &&& n1.name == n.name
                &&& n1.address == n.address
                &&& n1.version == n.version
                &&& n1.capabilities == n.capabilities
                &&& n1.registered_at == n.registered_at
                &&& n1.metadata == n.metadata
                &&& s1.events.take(base as int) == s.events
                &&& s1.events.len() == base + if changed {
                    2int
                } else {
                    1int
                }
                &&& changed ==> s1.events[base as int] == ControlEventView::NodeStatusChanged {
                    node_id: id,
                    old_status: n.status,
                    new_status: NodeStatus::Healthy,
                    timestamp: changed_at,
                }
                &&& s1.events.last() == ControlEventView::NodeHeartbeat {
                    node_id: id,
                    timestamp: beat_at,
                }
            }
        }),
{
    let (s1, ok) = heartbeat_step(s, id, recorded_at, changed_at, beat_at);
    if ok {
        assert(s1.nodes.dom() =~= s.nodes.dom());
        assert(s1.events.take(s.events.len() as int) =~= s.events);
    }
}

/// A health tick, spelled out node by node: an offline node is kept as it
/// is; any other node, while its count fits, misses one more heartbeat and
/// becomes unreachable once the count reaches the unreachable threshold,
/// degraded once it reaches the degraded threshold below that, and healthy
/// below both; nothing else about a node changes, no node is added or
/// removed, no event is queued, and the capacity and thresholds are kept.
pub proof fn law_tick_exact(s: ControlPlaneView)
    ensures
        ({
            let s1 = tick_step(s);
            let d = s.degraded_threshold;
            let u = s.unreachable_threshold;
            &&& s1.nodes.dom() == s.nodes.dom()
            &&& s1.events == s.events
            &&& s1.max_nodes == s.max_nodes
            &&& s1.degraded_threshold == d
            &&& s1.unreachable_threshold == u
            &&& forall|k: Seq<char>| #[trigger]
                s.nodes.contains_key(k) ==> {
                    let n = s.nodes[k];
                    let n1 = s1.nodes[k];
                    let m = n1.missed_heartbeats;
                    &&& n.status == NodeStatus::Offline ==> n1 == n
                    &&& n.status != NodeStatus::Offline && n.missed_heartbeats < u32::MAX ==> {
                        &&& m == n.missed_heartbeats + 1
                        &&& m >= u ==> n1.status == NodeStatus::Unreachable
                        &&& d <= m < u ==> n1.status == NodeStatus::Degraded
                        &&& m < d && m < u ==> n1.status == NodeStatus::Healthy
                    }
                    &&& n1.id == n.id
                    &&& n1.name == n.name
                    &&& n1.address == n.address
                    &&& n1.version == n.version
                    &&& n1.capabilities == n.capabilities
                    &&& n1.registered_at == n.registered_at
                    &&& n1.last_heartbeat == n.last_heartbeat
                    &&& n1.metadata == n.metadata
                }
        }),
{
    assert(tick_step(s).nodes.dom() =~= s.nodes.dom());
}

} // verus!
