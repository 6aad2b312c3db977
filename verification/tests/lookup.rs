use kademlia::id::NodeId;
use kademlia::network::Network;
use kademlia::node::Node;
use kademlia::{K, MAX_STEPS};
use std::cmp::Ordering;

fn id_from(prefix: u8, last: u8) -> NodeId {
    let mut bytes = [0u8; 20];
    bytes[0] = prefix;
    bytes[19] = last;
    NodeId::from_bytes(bytes)
}

#[test]
fn distance_to_self_is_zero() {
    let a = id_from(0xab, 0x07);
    assert_eq!(a.xor_distance(&a), [0u8; 20]);
    let b = NodeId::random();
    assert_eq!(b.xor_distance(&b), [0u8; 20]);
}

#[test]
fn distance_is_symmetric() {
    let a = id_from(0x12, 0x34);
    let b = id_from(0x56, 0x78);
    assert_eq!(a.xor_distance(&b), b.xor_distance(&a));
    let c = NodeId::random();
    let d = NodeId::random();
    assert_eq!(c.xor_distance(&d), d.xor_distance(&c));
}

#[test]
fn distance_has_exact_bytes() {
    let a = id_from(0xf0, 0x01);
    let b = id_from(0x0f, 0x01);
    let d = a.xor_distance(&b);
    assert_eq!(d[0], 0xff);
    assert_eq!(d[19], 0x00);
    let mut i: usize = 1;
    while i < 19 {
        assert_eq!(d[i], 0x00);
        i += 1;
    }
}

#[test]
fn compare_distances_orders_big_endian() {
    let mut a = [0u8; 20];
    let mut b = [0u8; 20];
    assert_eq!(kademlia::id::compare_distances(&a, &b), Ordering::Equal);
    a[0] = 1;
    b[19] = 0xff;
    assert_eq!(kademlia::id::compare_distances(&a, &b), Ordering::Greater);
    assert_eq!(kademlia::id::compare_distances(&b, &a), Ordering::Less);
}

#[test]
fn find_node_is_sorted_capped_and_never_self() {
    let own = id_from(0, 0);
    let mut node = Node::with_id(own);
    let mut i: u8 = 1;
    while i <= 12 {
        node.track_peer(&id_from(i, i));
        i += 1;
    }
    let caller = id_from(0xee, 0xee);
    let target = id_from(6, 6);
    let found = node.rpc_find_node(&caller, &target);
    assert!(found.len() <= K);
    assert!(found.len() <= node.peers.len());
    let mut j: usize = 1;
    while j < found.len() {
        let da = target.xor_distance(&found[j - 1]);
        let db = target.xor_distance(&found[j]);
        assert_ne!(
            kademlia::id::compare_distances(&da, &db),
            Ordering::Greater
        );
        j += 1;
    }
    assert!(!found.contains(&own));
    assert_eq!(found[0], target);
}

#[test]
fn table_capped_and_evicts_least_recent() {
    let own = id_from(0, 0);
    let mut node = Node::with_id(own);
    let mut i: u8 = 1;
    while i <= (K as u8) {
        node.track_peer(&id_from(i, 0));
        i += 1;
    }
    assert_eq!(node.peers.len(), K);
    // a (K+1)-th distinct peer evicts exactly the least-recently-touched one
    node.track_peer(&id_from(0xaa, 0xaa));
    assert_eq!(node.peers.len(), K);
    assert!(!node.peers.contains(&id_from(1, 0)));
    assert!(node.peers.contains(&id_from(2, 0)));
    assert_eq!(node.peers[K - 1], id_from(0xaa, 0xaa));
}

#[test]
fn touch_existing_reorders_without_growth() {
    let own = id_from(0, 0);
    let mut node = Node::with_id(own);
    node.track_peer(&id_from(1, 0));
    node.track_peer(&id_from(2, 0));
    node.track_peer(&id_from(3, 0));
    let before: Vec<NodeId> = node.peers.clone();
    node.track_peer(&id_from(1, 0));
    assert_eq!(node.peers.len(), before.len());
    assert_eq!(node.peers[0], id_from(2, 0));
    assert_eq!(node.peers[2], id_from(1, 0));
    for p in &before {
        assert!(node.peers.contains(p));
    }
}

#[test]
fn tracking_own_id_is_ignored() {
    let own = id_from(9, 9);
    let mut node = Node::with_id(own);
    node.track_peer(&own);
    assert_eq!(node.peers.len(), 0);
}

fn fully_connected(ids: &[NodeId]) -> Network {
    let mut net = Network::new();
    for id in ids {
        assert!(net.add_node_with_id(*id));
    }
    for a in ids {
        for b in ids {
            if a != b {
                assert_eq!(net.ping(a, b), Some(true));
            }
        }
    }
    net
}

#[test]
fn find_node_lookup_is_idempotent_on_static_network() {
    let ids = [id_from(1, 1), id_from(2, 2), id_from(3, 3), id_from(4, 4)];
    let mut net = fully_connected(&ids);
    let target = id_from(7, 7);
    let first = net.iterative_find_node(&ids[0], &target);
    let second = net.iterative_find_node(&ids[0], &target);
    assert_eq!(first, second);
}

#[test]
fn store_then_find_value_round_trip() {
    let ids = [id_from(1, 1), id_from(2, 2), id_from(3, 3)];
    let mut net = fully_connected(&ids);
    let key = b"greeting".to_vec();
    let value = b"well met".to_vec();
    let targets = net.iterative_store(&ids[0], key.clone(), value.clone());
    assert!(!targets.is_empty());
    let got = net.iterative_find_value(&ids[1], &key);
    assert_eq!(got, Some(value));
}

#[test]
fn lookup_with_no_reachable_peer_terminates_empty() {
    // no node at all carries the start identifier
    let mut net = Network::new();
    let start = id_from(5, 5);
    assert_eq!(net.iterative_find_value(&start, b"anything"), None);
    // the start node exists but knows no peers and does not hold the key
    assert!(net.add_node_with_id(start));
    assert_eq!(net.iterative_find_value(&start, b"anything"), None);
    assert!(MAX_STEPS >= 1);
}

#[test]
fn lonely_node_finds_its_own_value() {
    let mut net = Network::new();
    let only = id_from(4, 4);
    assert!(net.add_node_with_id(only));
    assert_eq!(
        net.store(&only, &only, b"k".to_vec(), b"v".to_vec()),
        Some(())
    );
    // no peer is reachable, but the start node itself holds the key
    assert_eq!(net.iterative_find_value(&only, b"k"), Some(b"v".to_vec()));
}

#[test]
fn three_node_scenario_stores_and_finds_hello() {
    let mut net = Network::new();
    let a = net.add_node().expect("identifier collision");
    let b = net.add_node().expect("identifier collision");
    let c = net.add_node().expect("identifier collision");
    // bootstrap exactly as the system description lays it out
    assert_eq!(net.ping(&b, &a), Some(true));
    assert_eq!(net.ping(&c, &a), Some(true));
    assert_eq!(net.ping(&c, &b), Some(true));
    let key = b"hello".to_vec();
    let value = b"world".to_vec();
    net.iterative_store(&b, key.clone(), value.clone());
    let got = net.iterative_find_value(&c, &key);
    assert_eq!(got, Some(b"world".to_vec()));
}

#[test]
fn find_node_from_empty_table_returns_at_most_itself() {
    let mut net = Network::new();
    let lonely = id_from(8, 8);
    assert!(net.add_node_with_id(lonely));
    let target = id_from(1, 2);
    let found = net.iterative_find_node(&lonely, &target);
    assert_eq!(found, vec![lonely]);
}

#[test]
fn closest_k_orders_and_caps() {
    let net = Network::new();
    let target = id_from(0, 0);
    let mut candidates: Vec<NodeId> = Vec::new();
    let mut i: u8 = 12;
    while i >= 1 {
        candidates.push(id_from(0, i));
        i -= 1;
    }
    let picked = net.closest_k(&target, &candidates);
    assert_eq!(picked.len(), K);
    let mut expect: Vec<NodeId> = Vec::new();
    let mut j: u8 = 1;
    while j <= (K as u8) {
        expect.push(id_from(0, j));
        j += 1;
    }
    assert_eq!(picked, expect);
}

#[test]
fn key_to_id_is_the_sha1_digest() {
    // SHA-1 of "hello", well known; fails if the digest wrapper echoed its input
    let id = Network::key_to_id(b"hello");
    assert_eq!(
        Network::id_hex(&id),
        "aaf4c61ddcc5e8a2dabede0f3b482cd9aea9434d"
    );
    // SHA-1 of the empty input
    let empty = Network::key_to_id(b"");
    assert_eq!(
        Network::id_hex(&empty),
        "da39a3ee5e6b4b0d3255bfef95601890afd80709"
    );
}

#[test]
fn id_hex_writes_every_byte() {
    let mut bytes = [0u8; 20];
    let mut i: usize = 0;
    while i < 20 {
        bytes[i] = i as u8;
        i += 1;
    }
    let id = NodeId::from_bytes(bytes);
    assert_eq!(
        Network::id_hex(&id),
        "000102030405060708090a0b0c0d0e0f10111213"
    );
}

#[test]
fn rpc_store_and_find_value_on_one_node() {
    let own = id_from(1, 0);
    let caller = id_from(2, 0);
    let mut node = Node::with_id(own);
    assert_eq!(node.rpc_find_value(&caller, b"k"), None);
    node.rpc_store(&caller, b"k".to_vec(), b"v1".to_vec());
    assert_eq!(node.rpc_find_value(&caller, b"k"), Some(b"v1".to_vec()));
    // an overwrite wins
    node.rpc_store(&caller, b"k".to_vec(), b"v2".to_vec());
    assert_eq!(node.rpc_find_value(&caller, b"k"), Some(b"v2".to_vec()));
    // other keys are untouched
    assert_eq!(node.rpc_find_value(&caller, b"other"), None);
    // the caller was recorded as a peer on every call
    assert_eq!(node.peers, vec![caller]);
}

#[test]
fn rpc_ping_acknowledges_and_records_caller() {
    let own = id_from(1, 0);
    let caller = id_from(2, 0);
    let mut node = Node::with_id(own);
    assert!(node.rpc_ping(&caller));
    assert_eq!(node.peers, vec![caller]);
}

#[test]
fn network_distinguishes_unreachable_from_not_found() {
    let mut net = Network::new();
    let a = id_from(1, 0);
    let ghost_id = id_from(2, 0);
    assert!(net.add_node_with_id(a));
    // unreachable target: no answer at all
    assert_eq!(net.ping(&a, &ghost_id), None);
    assert_eq!(net.find_value(&a, &ghost_id, b"k"), None);
    assert_eq!(net.find_node(&a, &ghost_id, &a), None);
    // reachable target without the key: a well-formed "not found"
    assert_eq!(net.find_value(&ghost_id, &a, b"k"), Some(None));
}

#[test]
fn duplicate_identifier_is_refused() {
    let mut net = Network::new();
    let a = id_from(3, 3);
    assert!(net.add_node_with_id(a));
    assert!(!net.add_node_with_id(a));
    assert!(net.add_node().is_some());
}

#[test]
fn random_identifiers_differ() {
    let a = NodeId::random();
    let b = NodeId::random();
    assert_ne!(a, b);
}
