use kadnet::math::hash::sha256;
use kadnet::math::u256::U256;
use kadnet::routing::entry::{Endpoint, NodeEntry};
use kadnet::routing::kbucket::KBucket;
use kadnet::routing::table::RoutingTable;
use kadnet::ALPHA;

fn v4(a: u8, b: u8, c: u8, d: u8) -> Endpoint {
    Endpoint::V4([a, b, c, d], 0)
}

fn entry(addr: Endpoint) -> NodeEntry {
    let id = match addr {
        Endpoint::V4(octets, _) => sha256(octets.as_slice()),
        Endpoint::V6(octets, _) => sha256(octets.as_slice()),
    };
    NodeEntry::new(id, addr, 0)
}

fn node(seed: &[u8]) -> RoutingTable {
    RoutingTable::new_from_id(sha256(seed))
}

// ===== Entry Tests =====

#[test]
fn entry_creation_from_ipv4() {
    let ip = v4(192, 168, 1, 1);
    let entry = entry(ip);

    assert_eq!(entry.addr, ip);
    assert_eq!(entry.distance, U256::from(0u32)); // Initial distance is 0
}

#[test]
fn entry_creation_from_ipv6() {
    let ip = Endpoint::V6([0, 0, 0, 0, 0, 0, 0, 0, 0, 0, 0, 0, 0, 0, 0, 1], 0);
    let entry = entry(ip);

    assert_eq!(entry.addr, ip);
    assert_eq!(entry.distance, U256::from(0u32));
}

#[test]
fn entry_compute_distance_updates_field() {
    let ip = v4(10, 0, 0, 1);
    let mut entry = entry(ip);

    let target = U256::from(42u32);
    entry.compute_score(target);

    // Distance should be updated
    assert_ne!(entry.distance, U256::from(0u32));
}

#[test]
fn entry_distance_computed_correctly() {
    let ip = v4(10, 0, 0, 1);
    let mut entry = entry(ip);

    let target = U256::from(100u32);
    entry.compute_score(target);

    // Distance should be XOR of entry.id and target
    assert_eq!(entry.distance, entry.id ^ target);
    assert_eq!(entry.distance(target), entry.id ^ target);
}

#[test]
fn entry_compute_distance_score_updates_score() {
    let ip = v4(10, 0, 0, 1);
    let mut entry = entry(ip);

    let target = U256::from(100u32);
    entry.compute_score(target);

    // Distance score should be non-zero after computation
    assert_ne!(entry.score, U256::from(0u32));
}

#[test]
fn entry_distance_score_includes_distance() {
    let ip = v4(10, 0, 0, 1);
    let mut entry = entry(ip);

    let target = U256::from(100u32);
    entry.compute_score(target);

    // Distance score should be at least as large as distance (since penalty is added)
    assert!(entry.score >= entry.distance);
}

#[test]
fn entry_compare_distance_score_orders_correctly() {
    let ip1 = v4(10, 0, 0, 1);
    let ip2 = v4(10, 0, 0, 2);

    let mut entry1 = entry(ip1);
    let mut entry2 = entry(ip2);

    let target = U256::from(100u32);
    entry1.compute_score(target);
    entry2.compute_score(target);

    // Comparison should return a valid ordering
    let ordering = entry1.compare_distance_score(&entry2);
    assert_eq!(Some(ordering), entry1.score.partial_cmp(&entry2.score));
    assert_eq!(entry1.compare_distance(&entry2), ordering);
    assert!(
        ordering == std::cmp::Ordering::Less
            || ordering == std::cmp::Ordering::Equal
            || ordering == std::cmp::Ordering::Greater
    );
}

#[test]
fn entry_distance_score_same_for_same_target() {
    let ip = v4(10, 0, 0, 1);
    let mut entry1 = entry(ip);
    let mut entry2 = entry(ip);

    let target = U256::from(100u32);
    entry1.compute_score(target);
    entry2.compute_score(target);

    // Same IP and target should produce same distance score
    assert_eq!(entry1.score, entry2.score);
}

#[test]
fn entry_respond_time_initialized() {
    let ip = v4(10, 0, 0, 1);
    let entry = entry(ip);

    assert_eq!(entry.respond_time_ms, 0);
}

#[test]
fn entry_default_has_zero_values() {
    let entry = NodeEntry::default();

    assert_eq!(entry.id, U256::zero());
    assert_eq!(entry.distance, U256::zero());
    assert_eq!(entry.score, U256::zero());
    assert_eq!(entry.respond_time_ms, 0);
}

// ===== Bucket Tests =====

#[test]
fn bucket_initialization_is_empty() {
    let id = sha256(b"test-node");
    let bucket = KBucket::new(4);

    let size = bucket.select_n_closests(ALPHA, id).len();
    assert_eq!(size, 0);
}

#[test]
fn bucket_add_entry_to_bucket() {
    let mut bucket = KBucket::new(16);

    let ip = v4(10, 0, 0, 1);
    let result = bucket.try_insert(entry(ip));

    let _ = result;
    assert_eq!(bucket.len(), 1);
}

#[test]
fn bucket_can_add_multiple_entries() {
    let id = sha256(b"bucket-id");
    let mut bucket = KBucket::new(16);

    let ips = vec![
        v4(10, 0, 0, 1),
        v4(10, 0, 0, 2),
        v4(10, 0, 0, 3),
    ];

    for ip in &ips {
        let _result = bucket.try_insert(entry(*ip));
    }

    let size = bucket.select_n_closests(ALPHA, id).len();
    assert!(size <= 3);
    assert_eq!(size, 3);
}

#[test]
fn bucket_find_n_closest_respects_limit() {
    let id = sha256(b"bucket-id");
    let mut bucket = KBucket::new(8);

    for i in 0..5 {
        let ip = v4(10, 0, 0, i);
        bucket.try_insert(entry(ip));
    }

    let size = bucket.select_n_closests(ALPHA, id).len();
    assert!(size <= 4); // ALPHA is 4
    assert_eq!(size, 4);
}

#[test]
fn bucket_initialization_with_different_k_values() {
    let id = sha256(b"test-id");

    let bucket_k1 = KBucket::new(1);
    let bucket_k2 = KBucket::new(2);
    let bucket_k4 = KBucket::new(4);
    let bucket_k8 = KBucket::new(8);
    let bucket_k16 = KBucket::new(16);

    assert_eq!(bucket_k1.select_n_closests(ALPHA, id).len(), 0);
    assert_eq!(bucket_k2.select_n_closests(ALPHA, id).len(), 0);
    assert_eq!(bucket_k4.select_n_closests(ALPHA, id).len(), 0);
    assert_eq!(bucket_k8.select_n_closests(ALPHA, id).len(), 0);
    assert_eq!(bucket_k16.select_n_closests(ALPHA, id).len(), 0);
}

#[test]
fn bucket_find_n_closest_returns_sorted_results() {
    let id = sha256(b"bucket-id");
    let mut bucket = KBucket::new(16);

    for i in 0..8 {
        let ip = v4(10, 0, 0, i);
        bucket.try_insert(entry(ip));
    }

    let found = bucket.select_n_closests(ALPHA, id);
    assert!(found.len() <= 4, "Should return at most 4 entries");
    for pair in found.windows(2) {
        assert!(pair[0].score <= pair[1].score);
    }
}

// ===== Node Tests =====

#[test]
fn node_initialization_creates_valid_id() {
    let node = node(b"test-seed");
    assert_ne!(node.local(), U256::from(0u32));
}

#[test]
fn node_same_seed_produces_same_id() {
    let node1 = node(b"same-seed");
    let node2 = node(b"same-seed");

    assert_eq!(node1.local(), node2.local());
}

#[test]
fn node_different_seeds_produce_different_ids() {
    let node1 = node(b"seed1");
    let node2 = node(b"seed2");

    assert_ne!(node1.local(), node2.local());
}

#[test]
fn node_get_n_closest_returns_correct_size() {
    let node = node(b"node-seed");
    let target = sha256(b"target");

    let closest_1 = node.get_closests(ALPHA, target);
    let closest_3 = node.get_closests(ALPHA, target);
    let closest_5 = node.get_closests(ALPHA, target);

    assert!(closest_1.is_empty() && closest_3.is_empty() && closest_5.is_empty());
}

#[test]
fn node_get_n_closest_with_empty_buckets() {
    let node = node(b"empty-node");
    let target = sha256(b"some-target");

    let closest = node.get_closests(ALPHA, target);

    assert!(closest.is_empty());
}
