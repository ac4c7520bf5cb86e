use std::collections::{BTreeMap, BTreeSet};

use irokle::ids::{Id32, PeerId};
use irokle::idmap::IdMap;
use irokle::idset::IdSet;
use irokle::node::peers::{
    build_order, select_sync_peers, select_sync_targets, PeerHealth, PeerHealthStore, PEER_FAILURE_LIMIT,
    PEER_PROBE_PERIOD,
};
use irokle::storage::TopicState;
use irokle::topic::ReplicationPolicy;

fn peer_at(index: u8) -> PeerId {
    Id32::hash(&[0x5e, 0xed, index])
}

/// Fanout budget, expected healthy edges, expected failover edges, saturated
/// hub count and peak inbound after failover.
type GraphCase = (usize, &'static [usize], &'static [usize], usize, usize);

fn index_of(members: &[PeerId], peer: PeerId) -> usize {
    members
        .iter()
        .position(|member| *member == peer)
        .expect("peer outside the generated member set")
}

fn topic_state(members: &[PeerId], policy: ReplicationPolicy) -> TopicState {
    TopicState {
        topic_id: Id32::hash(b"peer-selection"),
        event_type_id: "peers::test".into(),
        genesis: Id32::hash(b"peer-selection-genesis"),
        heads: IdSet::new(),
        members: IdSet::from_slice(members),
        replication_policy: policy,
        membership_controls: IdMap::new(),
        replication_policy_key: None,
    }
}

fn health(attempts: &BTreeMap<PeerId, u64>, epoch: u64) -> PeerHealth {
    let mut map = IdMap::new();
    for (peer, failures) in attempts {
        map.insert(*peer, *failures);
    }
    PeerHealth::new(map, epoch)
}

#[test]
fn small_fanout_graph() {
    let members = (0..7_u8).map(peer_at).collect::<Vec<_>>();
    // Expected selections for this fixed member set, flattened per local
    // member 0..=6. Failover demotes the two preferred hubs at epoch 1.
    let cases: [GraphCase; 3] = [
        (1, &[3, 3, 3, 4, 3, 3, 3], &[6, 5, 6, 5, 1, 2, 0], 1, 2),
        (
            2,
            &[3, 4, 3, 4, 3, 6, 5, 4, 3, 1, 3, 2, 3, 0],
            &[5, 6, 5, 0, 5, 0, 5, 1, 5, 0, 6, 1, 5, 2],
            1,
            6,
        ),
        (
            3,
            &[
                3, 6, 4, 3, 5, 4, 3, 6, 4, 5, 4, 1, 3, 5, 1, 3, 2, 4, 3, 0, 4,
            ],
            &[
                5, 6, 1, 5, 6, 0, 5, 6, 0, 5, 6, 1, 5, 6, 0, 2, 6, 1, 5, 2, 1,
            ],
            2,
            6,
        ),
    ];

    for (max, healthy_edges, failover_edges, saturated_hubs, failover_peak) in cases {
        let state = topic_state(&members, ReplicationPolicy::all().with_max_sync_peers(max));
        let order = build_order(state.topic_id, members[0], &state);
        let mut attempts = BTreeMap::new();
        for peer in order.hubs.iter().take(2) {
            attempts.insert(*peer, PEER_FAILURE_LIMIT);
        }
        let mut healthy_inbound: BTreeMap<usize, usize> = BTreeMap::new();
        let mut failover_inbound: BTreeMap<usize, usize> = BTreeMap::new();

        for (position, local) in members.iter().enumerate() {
            let healthy = select_sync_peers(state.topic_id, *local, &state);
            let failover = select_sync_targets(state.topic_id, *local, &state, &health(&attempts, 1));
            assert_eq!(healthy.len(), max);
            assert_eq!(failover.peers.len(), max);
            assert!(!failover.blocked);
            for peer in &failover.peers {
                assert!(!attempts.contains_key(peer), "max {max} local {position}");
            }
            let slot = position * max..(position + 1) * max;
            let healthy = healthy
                .iter()
                .map(|peer| index_of(&members, *peer))
                .collect::<Vec<_>>();
            let failover = failover
                .peers
                .iter()
                .map(|peer| index_of(&members, *peer))
                .collect::<Vec<_>>();
            assert_eq!(healthy, healthy_edges[slot.clone()], "max {max}");
            assert_eq!(failover, failover_edges[slot], "max {max}");
            for peer in healthy {
                *healthy_inbound.entry(peer).or_default() += 1;
            }
            for peer in failover {
                *failover_inbound.entry(peer).or_default() += 1;
            }
        }

        let full = members.len() - 1;
        let saturated = healthy_inbound.values().filter(|c| **c == full).count();
        assert_eq!(saturated, saturated_hubs, "max {max}");
        assert_eq!(
            failover_inbound.values().copied().max(),
            Some(failover_peak)
        );
    }
}

#[test]
fn demotes_preferred_peer() {
    let members = (0..9_u8).map(peer_at).collect::<Vec<_>>();
    let state = topic_state(&members, ReplicationPolicy::all().with_max_sync_peers(3));
    let local = members[0];
    let baseline = select_sync_peers(state.topic_id, local, &state);
    let order = build_order(state.topic_id, local, &state);
    let lost = order.hubs[0];
    assert!(baseline.contains(&lost));

    let mut attempts = BTreeMap::new();
    attempts.insert(lost, PEER_FAILURE_LIMIT);
    let selection = select_sync_targets(state.topic_id, local, &state, &health(&attempts, 1));
    assert!(!selection.peers.contains(&lost));
    assert_eq!(selection.peers.len(), 3);
    assert!(!selection.blocked);
    let scope = &state.members;
    assert!(
        selection
            .peers
            .iter()
            .all(|peer| scope.contains(peer) && *peer != local)
    );
}

#[test]
fn demotes_ring_neighbour() {
    let members = (0..9_u8).map(peer_at).collect::<Vec<_>>();
    let state = topic_state(&members, ReplicationPolicy::all().with_max_sync_peers(3));
    let local = members[4];
    let baseline = select_sync_peers(state.topic_id, local, &state);
    let order = build_order(state.topic_id, local, &state);
    let ring = order.ring.iter().find(|peer| baseline.contains(peer));
    let neighbour = *ring.expect("ring slot is part of the budget");

    let mut attempts = BTreeMap::new();
    attempts.insert(neighbour, PEER_FAILURE_LIMIT + 3);
    let selection = select_sync_targets(state.topic_id, local, &state, &health(&attempts, 2));
    assert!(!selection.peers.contains(&neighbour));
    assert_eq!(selection.peers.len(), 3);
    assert!(!selection.blocked);
    assert!(selection.peers.iter().all(|peer| *peer != local));
}

#[test]
fn restriction_reports_blocked() {
    let members = (0..6_u8).map(peer_at).collect::<Vec<_>>();
    let allowed = [members[2], members[3]];
    let local = members[0];
    let mut attempts = BTreeMap::new();
    attempts.insert(allowed[0], PEER_FAILURE_LIMIT + 5);
    attempts.insert(allowed[1], PEER_FAILURE_LIMIT);
    for max in [1_usize, 3] {
        let state = topic_state(
            &members,
            ReplicationPolicy::selected(&allowed).with_max_sync_peers(max),
        );
        let healthy = select_sync_peers(state.topic_id, local, &state);
        assert!(
            healthy.iter().all(|peer| allowed.contains(peer)),
            "max {max}"
        );
        let selection = select_sync_targets(state.topic_id, local, &state, &health(&attempts, 3));
        assert!(selection.blocked, "max {max}");
        assert!(!selection.peers.is_empty(), "max {max}");
        assert!(selection.peers.len() <= max, "max {max}");
        assert!(
            selection.peers.iter().all(|peer| allowed.contains(peer)),
            "max {max}"
        );
    }
}

#[test]
fn damps_single_failure() {
    let members = (0..9_u8).map(peer_at).collect::<Vec<_>>();
    let state = topic_state(&members, ReplicationPolicy::all().with_max_sync_peers(3));
    let local = members[2];
    let baseline = select_sync_peers(state.topic_id, local, &state);
    let order = build_order(state.topic_id, local, &state);
    let shaky = order.hubs[0];

    let mut attempts = BTreeMap::new();
    attempts.insert(shaky, PEER_FAILURE_LIMIT - 1);
    let damped = select_sync_targets(state.topic_id, local, &state, &health(&attempts, 0));
    assert_eq!(damped.peers, baseline);
    assert!(!damped.blocked);

    attempts.insert(shaky, PEER_FAILURE_LIMIT);
    let moved = select_sync_targets(state.topic_id, local, &state, &health(&attempts, 0));
    assert!(!moved.peers.contains(&shaky));
    assert_eq!(moved.peers.len(), 3);
}

#[test]
fn probe_retries_demoted() {
    let members = (0..8_u8).map(peer_at).collect::<Vec<_>>();
    let state = topic_state(&members, ReplicationPolicy::all().with_max_sync_peers(1));
    let local = members[5];
    let order = build_order(state.topic_id, local, &state);
    let hub = order.hubs[0];
    assert_eq!(select_sync_peers(state.topic_id, local, &state), vec![hub]);

    let mut attempts = BTreeMap::new();
    attempts.insert(hub, PEER_FAILURE_LIMIT);
    let mut alternates = BTreeSet::new();
    for epoch in 1..PEER_PROBE_PERIOD {
        let selection = select_sync_targets(state.topic_id, local, &state, &health(&attempts, epoch));
        assert_eq!(selection.peers.len(), 1, "epoch {epoch}");
        assert!(!selection.peers.contains(&hub), "epoch {epoch}");
        assert!(!selection.blocked, "epoch {epoch}");
        alternates.extend(selection.peers);
    }
    assert!(alternates.len() > 1);

    let probe = select_sync_targets(state.topic_id, local, &state, &health(&attempts, PEER_PROBE_PERIOD));
    assert_eq!(probe.peers, vec![hub]);
}

#[test]
fn health_store_records_and_clears() {
    let mut store = PeerHealthStore::new();
    let peer = peer_at(1);
    assert!(store.record_failure(peer));
    assert!(store.record_failure(peer));
    assert_eq!(store.failures(&peer), 2);
    assert_eq!(store.view().epoch, 2);
    assert!(store.view().demoted(&peer));
    assert!(store.record_success(&peer));
    assert_eq!(store.failures(&peer), 0);
    assert_eq!(store.view().epoch, 0);
    assert!(!store.record_success(&peer));
}

#[test]
fn small_member_sets_select_everyone() {
    let members = (0..3_u8).map(peer_at).collect::<Vec<_>>();
    let state = topic_state(&members, ReplicationPolicy::all().with_max_sync_peers(5));
    let selected = select_sync_peers(state.topic_id, members[1], &state);
    assert_eq!(selected.len(), 2);
    assert!(!selected.contains(&members[1]));
    let none = topic_state(&members, ReplicationPolicy::all().with_max_sync_peers(0));
    assert!(select_sync_peers(none.topic_id, members[1], &none).is_empty());
}
