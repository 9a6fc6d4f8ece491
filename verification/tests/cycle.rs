//! Tests of membership filtering and the quorum decision cycle.

use quorum_scaler::addr::PeerAddr;
use quorum_scaler::coordinator::{plan_cycle, quorum_threshold, Collecting, CyclePlan};
use quorum_scaler::membership::{manager_addresses, Node};
use quorum_scaler::message::Message;

fn node(id: &str, state: &str, addr: &str, role: &str) -> Node {
    Node {
        id: id.as_bytes().to_vec(),
        state: state.as_bytes().to_vec(),
        addr: addr.as_bytes().to_vec(),
        role: role.as_bytes().to_vec(),
    }
}

fn pa(o0: u8, o1: u8, o2: u8, o3: u8, port: u16) -> PeerAddr {
    PeerAddr { o0, o1, o2, o3, port }
}

#[test]
fn threshold_is_floor_half_plus_one() {
    assert_eq!(quorum_threshold(2), 2);
    assert_eq!(quorum_threshold(3), 2);
    assert_eq!(quorum_threshold(4), 3);
    assert_eq!(quorum_threshold(5), 3);
    assert_eq!(quorum_threshold(6), 4);
}

#[test]
fn membership_filter_keeps_only_ready_managers_with_good_addresses() {
    let nodes = vec![
        node("a", "ready", "10.0.0.1:4000", "manager"),
        node("b", "ready", "10.0.0.2:4000", "worker"),
        node("c", "down", "10.0.0.3:4000", "manager"),
        node("d", "ready", "not-an-address", "manager"),
        node("e", "ready", "10.0.0.5:4000", "manager"),
    ];
    let peers = manager_addresses(&nodes);
    assert_eq!(peers, vec![pa(10, 0, 0, 1, 4000), pa(10, 0, 0, 5, 4000)]);
}

#[test]
fn three_peer_cycle_reaches_quorum_after_one_confirmation() {
    let local = pa(10, 0, 0, 1, 4000);
    let nodes = vec![
        node("a", "ready", "10.0.0.1:4000", "manager"),
        node("b", "ready", "10.0.0.2:4000", "manager"),
        node("c", "ready", "10.0.0.3:4000", "manager"),
    ];
    match plan_cycle(&local, Some(nodes)) {
        CyclePlan::Propose { peers, targets, threshold } => {
            assert_eq!(threshold, 2);
            assert_eq!(targets, vec![pa(10, 0, 0, 2, 4000), pa(10, 0, 0, 3, 4000)]);
            let mut c = Collecting::start(peers);
            assert!(!c.decided());
            c.absorb(&Some(Message::Confirmation {
                node_id: b"10.0.0.2:4000".to_vec(),
            }));
            assert!(c.decided());
            assert_eq!(c.tally, 2);
            // the completion notice goes to the whole captured peer set
            assert_eq!(
                c.peers,
                vec![
                    pa(10, 0, 0, 1, 4000),
                    pa(10, 0, 0, 2, 4000),
                    pa(10, 0, 0, 3, 4000),
                ]
            );
        },
        _ => panic!("three ready managers must lead to a proposal"),
    }
}

#[test]
fn lone_peer_sends_nothing() {
    let local = pa(10, 0, 0, 1, 4000);
    let nodes = vec![node("a", "ready", "10.0.0.1:4000", "manager")];
    match plan_cycle(&local, Some(nodes)) {
        CyclePlan::TooFew { peers } => {
            assert_eq!(peers, vec![pa(10, 0, 0, 1, 4000)]);
        },
        _ => panic!("a lone peer must not propose"),
    }
}

#[test]
fn failed_fetch_abandons_the_cycle() {
    let local = pa(10, 0, 0, 1, 4000);
    assert!(matches!(plan_cycle(&local, None), CyclePlan::FetchFailed));
}

#[test]
fn tally_starts_at_one() {
    let peers = vec![pa(10, 0, 0, 1, 4000), pa(10, 0, 0, 2, 4000)];
    let c = Collecting::start(peers);
    assert_eq!(c.tally, 1);
}

#[test]
fn duplicate_confirmations_each_count() {
    let peers = vec![
        pa(10, 0, 0, 1, 4000),
        pa(10, 0, 0, 2, 4000),
        pa(10, 0, 0, 3, 4000),
        pa(10, 0, 0, 4, 4000),
        pa(10, 0, 0, 5, 4000),
    ];
    let mut c = Collecting::start(peers);
    assert_eq!(c.threshold, 3);
    let same_sender = Message::Confirmation {
        node_id: b"10.0.0.2:4000".to_vec(),
    };
    c.absorb(&Some(same_sender.clone()));
    assert_eq!(c.tally, 2);
    c.absorb(&Some(same_sender));
    assert_eq!(c.tally, 3);
    assert!(c.decided());
}

#[test]
fn collection_without_confirmations_never_decides() {
    let peers = vec![pa(10, 0, 0, 1, 4000), pa(10, 0, 0, 2, 4000), pa(10, 0, 0, 3, 4000)];
    let mut c = Collecting::start(peers);
    // a bounded stand-in for the unbounded wait: receive failures,
    // proposals and completion notices never raise the tally
    for _ in 0..100 {
        assert!(!c.decided());
        c.absorb(&None);
        c.absorb(&Some(Message::Proposal {
            node_id: b"10.0.0.2:4000".to_vec(),
        }));
        c.absorb(&Some(Message::ScaleComplete));
    }
    assert!(!c.decided());
    assert_eq!(c.tally, 1);
}
