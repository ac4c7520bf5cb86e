use irokle::accept::{Admission, ConnectionCounts, MAX_ACCEPT_CONNECTIONS_PER_PEER, MAX_PENDING_HANDSHAKES};
use irokle::ids::Id32;
use irokle::runtime::IrohRuntimeConfig;
use irokle::sweep::SweepTimer;
use irokle::transport::sync_alpn;

#[test]
fn handshakes_are_bounded() {
    let mut counts = ConnectionCounts::new();
    for _ in 0..MAX_PENDING_HANDSHAKES {
        assert!(counts.on_incoming());
    }
    assert!(!counts.on_incoming());
    counts.on_handshake_failed();
    assert!(counts.on_incoming());
}

#[test]
fn only_the_sync_protocol_is_served_and_each_peer_is_capped() {
    let mut counts = ConnectionCounts::new();
    let peer = Id32::from_bytes([3; 32]);
    assert!(counts.on_incoming());
    assert_eq!(counts.admit_connection(peer, &b"other/1".to_vec()), Admission::WrongProtocol);
    for _ in 0..MAX_ACCEPT_CONNECTIONS_PER_PEER {
        assert!(counts.on_incoming());
        assert_eq!(counts.admit_connection(peer, &sync_alpn()), Admission::Admit);
    }
    assert!(counts.on_incoming());
    assert_eq!(counts.admit_connection(peer, &sync_alpn()), Admission::PeerSaturated);
    let other = Id32::from_bytes([4; 32]);
    assert!(counts.on_incoming());
    assert_eq!(counts.admit_connection(other, &sync_alpn()), Admission::Admit);
    counts.on_connection_closed(peer);
    assert!(counts.on_incoming());
    assert_eq!(counts.admit_connection(peer, &sync_alpn()), Admission::Admit);
    assert!(counts.has_room());
}

#[test]
fn failed_sweeps_back_off_and_success_resets() {
    let config = IrohRuntimeConfig::defaults();
    let mut timer = SweepTimer::new(&config);
    // A failed startup sweep retries after the initial backoff, not doubled.
    assert_eq!(timer.next_sweep(true, 5000, 5, &config), 6000);
    assert!(timer.pending);
    assert!(timer.may_sweep(false, &config));
    assert!(!timer.may_sweep(true, &config));
    // Later failures double the backoff.
    assert_eq!(timer.next_sweep(true, 10000, 10, &config), 12000);
    assert_eq!(timer.next_sweep(true, 20000, 20, &config), 24000);
    // A success resets it and waits the interval.
    assert_eq!(timer.next_sweep(false, 30000, 30, &config), 30000 + 86400000);
    assert_eq!(timer.backoff_ms, 1000);
    assert!(!timer.pending);
}

#[test]
fn startup_sweep_success_waits_for_the_time_of_day() {
    let config = IrohRuntimeConfig::defaults();
    let mut timer = SweepTimer::new(&config);
    // At midnight the three o'clock sweep is three hours away.
    assert_eq!(timer.next_sweep(false, 0, 0, &config), 3 * 3600 * 1000);
}
