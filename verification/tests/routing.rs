use kadnet::math::u256::U256;
use kadnet::network::errors::NetworkError;
use kadnet::routing::entry::{Endpoint, NodeEntry};
use kadnet::routing::errors::{BucketError, RoutingError};
use kadnet::routing::kbucket::{InsertDecision, KBucket};
use kadnet::routing::prober::{next_probe_step, ProbeStep, Prober};
use kadnet::routing::rank::{insert_ranked, merge_ranked};
use kadnet::routing::table::RoutingTable;

struct Stub {
    alive: bool,
    calls: usize,
}

impl Prober for Stub {
    fn probe(&mut self, _addr: Endpoint) -> Result<u128, NetworkError> {
        self.calls += 1;
        if self.alive {
            Ok(5)
        } else {
            Err(NetworkError::Timeout)
        }
    }
}

fn low(byte: u8) -> U256 {
    U256::from(byte)
}

fn peer(byte: u8) -> NodeEntry {
    NodeEntry::new(low(byte), Endpoint::V4([10, 0, 0, byte], 4000 + byte as u16), 0)
}

fn ids(entries: &[NodeEntry]) -> Vec<U256> {
    entries.iter().map(|e| e.id).collect()
}

fn bucket_ids(table: &RoutingTable, i: usize) -> Vec<U256> {
    ids(&table.bucket(i).unwrap().entries())
}

#[test]
fn empty_table_has_no_closest_peer() {
    let table = RoutingTable::new_from_id(U256::zero());
    assert_eq!(table.find_corresponding_bucket(low(1)), Some(0));
    assert!(table.get_closests(4, low(1)).is_empty());
    // a lookup for no peer at all returns none either
    assert!(table.get_closests(0, low(1)).is_empty());
}

#[test]
fn bucket_of_is_the_highest_differing_bit() {
    let table = RoutingTable::new_from_id(U256::zero());
    assert_eq!(table.find_corresponding_bucket(U256::zero()), None);
    assert_eq!(table.find_corresponding_bucket(low(1)), Some(0));
    assert_eq!(table.find_corresponding_bucket(low(3)), Some(1));
    assert_eq!(table.find_corresponding_bucket(low(0x80)), Some(7));
    assert_eq!(table.find_corresponding_bucket(U256::max_value()), Some(255));
    let other = RoutingTable::new_from_id(U256::two_pow_k(255));
    assert_eq!(other.find_corresponding_bucket(U256::two_pow_k(255) + low(1)), Some(0));
    assert_eq!(other.find_corresponding_bucket(U256::zero()), Some(255));
}

#[test]
fn buckets_have_the_stated_capacities() {
    let table = RoutingTable::new_from_id(U256::zero());
    let expected = [1usize, 2, 4, 8, 32, 32];
    for (i, cap) in expected.iter().enumerate() {
        assert_eq!(table.bucket(i).unwrap().limit(), *cap);
        assert_eq!(table.bucket(i).unwrap().len(), 0);
    }
    assert_eq!(table.bucket(255).unwrap().limit(), 32);
    assert!(table.bucket(256).is_none());
    assert_eq!(table.local(), U256::zero());
}

#[test]
fn entries_go_to_the_bucket_of_their_distance() {
    let mut table = RoutingTable::new_from_id(U256::zero());
    let mut prober = Stub { alive: true, calls: 0 };
    for byte in [1u8, 2, 4, 8] {
        assert_eq!(table.insert(peer(byte), &mut prober), Ok(()));
    }
    assert_eq!(bucket_ids(&table, 0), vec![low(1)]);
    assert_eq!(bucket_ids(&table, 1), vec![low(2)]);
    assert_eq!(bucket_ids(&table, 2), vec![low(4)]);
    assert_eq!(bucket_ids(&table, 3), vec![low(8)]);
    assert_eq!(prober.calls, 0);
}

#[test]
fn inserting_the_local_node_is_refused() {
    let local = low(0x42);
    let mut table = RoutingTable::new_from_id(local);
    let mut prober = Stub { alive: true, calls: 0 };
    let me = NodeEntry::new(local, Endpoint::V6([0; 16], 1), 0);
    assert_eq!(table.insert(me, &mut prober), Err(RoutingError::SelfNode));
    assert!(matches!(table.begin_insert(me), Err(RoutingError::SelfNode)));
    assert_eq!(table.finish_insert(me, peer(1), false), Err(RoutingError::SelfNode));
    for i in 0..256 {
        assert_eq!(table.bucket(i).unwrap().len(), 0);
    }
}

#[test]
fn closest_walks_outwards_from_the_target_bucket() {
    let mut table = RoutingTable::new_from_id(U256::zero());
    let mut prober = Stub { alive: true, calls: 0 };
    for byte in [0x20u8, 0x01, 0x10, 0x02, 0x08, 0x04] {
        table.insert(peer(byte), &mut prober).unwrap();
    }
    let found = table.get_closests(4, U256::zero());
    assert_eq!(ids(&found), vec![low(1), low(2), low(4), low(8)]);
    // the copies handed out are scored for the target
    assert_eq!(found[3].distance, low(8));
    assert_eq!(found[3].score, low(8));
    // fewer peers than asked for: all of them, in order
    let all = table.get_closests(10, U256::zero());
    assert_eq!(ids(&all), vec![low(1), low(2), low(4), low(8), low(0x10), low(0x20)]);
    // a lookup does not touch the table
    assert_eq!(bucket_ids(&table, 5), vec![low(0x20)]);
}

#[test]
fn closest_is_sorted_distinct_and_of_the_right_length() {
    let local = low(0x55);
    let mut table = RoutingTable::new_from_id(local);
    let mut prober = Stub { alive: true, calls: 0 };
    let mut stored = 0;
    for byte in 0u8..=200 {
        if low(byte) != local {
            let mut e = peer(byte);
            e.respond_time_ms = (byte as u128) * 7;
            if table.insert(e, &mut prober).is_ok() {
                stored += 1;
            }
        }
    }
    let total: usize = (0..256).map(|i| table.bucket(i).unwrap().len()).sum();
    assert!(total <= stored);
    for alpha in [0usize, 1, 4, 7, 300] {
        for target in [low(0), low(0x55), low(0x56), low(0xF0), U256::max_value()] {
            let found = table.get_closests(alpha, target);
            assert_eq!(found.len(), alpha.min(total));
            for pair in found.windows(2) {
                assert!(pair[0].score <= pair[1].score);
            }
            for (i, a) in found.iter().enumerate() {
                assert_eq!(a.distance, a.id ^ target);
                for b in &found[i + 1..] {
                    assert_ne!(a.id, b.id);
                }
            }
        }
    }
}

#[test]
fn every_stored_entry_sits_in_its_bucket() {
    let local = U256::two_pow_k(200) + low(9);
    let mut table = RoutingTable::new_from_id(local);
    let mut prober = Stub { alive: false, calls: 0 };
    for k in 0u8..=255 {
        let id = local ^ U256::two_pow_k(k);
        let e = NodeEntry::new(id, Endpoint::V4([1, 1, 1, k], 9), 3);
        assert_eq!(table.insert(e, &mut prober), Ok(()));
    }
    for i in 0..256usize {
        let entries = table.bucket(i).unwrap().entries();
        assert_eq!(entries.len(), 1);
        for e in entries {
            assert_ne!(e.id, local);
            assert_eq!(table.find_corresponding_bucket(e.id), Some(i));
        }
    }
}

#[test]
fn a_known_peer_is_refreshed_to_the_back() {
    let mut bucket = KBucket::new(4);
    assert!(matches!(bucket.try_insert(peer(1)), InsertDecision::Inserted));
    assert!(matches!(bucket.try_insert(peer(2)), InsertDecision::Inserted));
    assert!(matches!(bucket.try_insert(peer(3)), InsertDecision::Inserted));
    let mut again = peer(1);
    again.respond_time_ms = 77;
    assert!(matches!(bucket.try_insert(again), InsertDecision::Refreshed));
    assert_eq!(ids(&bucket.entries()), vec![low(2), low(3), low(1)]);
    // the record kept is the one that was stored
    assert_eq!(bucket.entries()[2].respond_time_ms, 0);
    // a second refresh changes neither length nor place
    assert!(matches!(bucket.try_insert(again), InsertDecision::Refreshed));
    assert_eq!(ids(&bucket.entries()), vec![low(2), low(3), low(1)]);
    assert_eq!(bucket.len(), 3);
    assert!(!bucket.is_full());
}

#[test]
fn a_full_bucket_names_its_oldest_entry() {
    let mut bucket = KBucket::new(1);
    assert!(matches!(bucket.try_insert(peer(1)), InsertDecision::Inserted));
    assert!(bucket.is_full());
    match bucket.try_insert(peer(2)) {
        InsertDecision::PingOldest(oldest) => assert_eq!(oldest.id, low(1)),
        _ => panic!("the bucket was full"),
    }
    assert_eq!(ids(&bucket.entries()), vec![low(1)]);
    // the oldest entry did not answer: it leaves, and the newcomer enters
    assert_eq!(bucket.remove(low(1)), Ok(()));
    bucket.force_insert(peer(2));
    assert_eq!(ids(&bucket.entries()), vec![low(2)]);
    assert_eq!(bucket.limit(), 1);
}

#[test]
fn removing_an_unknown_peer_is_an_error() {
    let mut bucket = KBucket::new(2);
    bucket.try_insert(peer(1));
    assert_eq!(bucket.remove(low(9)), Err(BucketError::NodeNotFound));
    assert_eq!(bucket.len(), 1);
    assert!(bucket.contains(&low(1)));
    assert!(!bucket.contains(&low(9)));
    assert_eq!(bucket.remove(low(1)), Ok(()));
    assert_eq!(bucket.len(), 0);
}

fn fill_bucket_six(table: &mut RoutingTable, prober: &mut Stub) {
    // bucket 6 takes the distances 64..128 and holds 32 entries
    for byte in 64u8..96 {
        assert_eq!(table.insert(peer(byte), prober), Ok(()));
    }
    assert_eq!(table.bucket(6).unwrap().len(), 32);
    assert_eq!(prober.calls, 0);
}

#[test]
fn a_live_oldest_entry_keeps_its_place() {
    let mut table = RoutingTable::new_from_id(U256::zero());
    let mut prober = Stub { alive: true, calls: 0 };
    fill_bucket_six(&mut table, &mut prober);
    let before = bucket_ids(&table, 6);
    assert_eq!(table.insert(peer(100), &mut prober), Ok(()));
    assert_eq!(prober.calls, 1);
    assert_eq!(bucket_ids(&table, 6), before);
}

#[test]
fn a_dead_oldest_entry_is_replaced() {
    let mut table = RoutingTable::new_from_id(U256::zero());
    let mut prober = Stub { alive: false, calls: 0 };
    fill_bucket_six(&mut table, &mut prober);
    assert_eq!(table.insert(peer(100), &mut prober), Ok(()));
    assert_eq!(prober.calls, 1);
    let after = bucket_ids(&table, 6);
    assert_eq!(after.len(), 32);
    assert!(!after.contains(&low(64)));
    assert_eq!(after[0], low(65));
    assert_eq!(after[31], low(100));
}

#[test]
fn the_two_halves_of_an_insertion() {
    let mut table = RoutingTable::new_from_id(U256::zero());
    let mut prober = Stub { alive: true, calls: 0 };
    fill_bucket_six(&mut table, &mut prober);
    let oldest = match table.begin_insert(peer(101)) {
        Ok(InsertDecision::PingOldest(oldest)) => oldest,
        _ => panic!("the bucket was full"),
    };
    assert_eq!(oldest.id, low(64));
    assert_eq!(oldest.addr, Endpoint::V4([10, 0, 0, 64], 4064));
    assert_eq!(table.bucket(6).unwrap().len(), 32);
    // the oldest entry is gone already: the newcomer still enters
    assert_eq!(table.finish_insert(peer(101), peer(7), false), Ok(()));
    assert_eq!(table.bucket(6).unwrap().len(), 32);
    assert_eq!(table.finish_insert(peer(101), oldest, false), Ok(()));
    let after = bucket_ids(&table, 6);
    assert_eq!(after[31], low(101));
    assert!(!after.contains(&low(64)));
    assert!(matches!(table.begin_insert(peer(101)), Ok(InsertDecision::Refreshed)));
    assert!(matches!(table.begin_insert(peer(1)), Ok(InsertDecision::Inserted)));
}

#[test]
fn the_score_is_the_distance_plus_a_share_of_it() {
    let target = U256::zero();
    let id = U256::from(2048u32);
    let mut e = NodeEntry::new(id, Endpoint::V4([1, 2, 3, 4], 5), 0);
    assert_eq!(e.distance(target), id);
    e.compute_score(target);
    assert_eq!(e.distance, id);
    assert_eq!(e.score, U256::from(2048u32));
    e.respond_time_ms = 400;
    e.compute_score(target);
    assert_eq!(e.score, U256::from(2049u32));
    e.respond_time_ms = 800;
    e.compute_score(target);
    assert_eq!(e.score, U256::from(2050u32));
    e.respond_time_ms = 1_000_000;
    e.compute_score(target);
    assert_eq!(e.score, U256::from(2050u32));
    // scoring twice changes nothing
    let once = e;
    e.compute_score(target);
    assert_eq!(e.score, once.score);
    assert_eq!(e.distance, once.distance);
    // a distance below 2^10 bears no penalty
    let mut near = NodeEntry::new(low(0xFF), Endpoint::V4([1, 2, 3, 4], 5), 800);
    near.compute_score(target);
    assert_eq!(near.score, low(0xFF));
    // against another target
    let mut far = NodeEntry::new(low(0x0F), Endpoint::V4([1, 2, 3, 4], 5), 0);
    far.compute_score(low(0xF0));
    assert_eq!(far.distance, low(0xFF));
}

#[test]
fn the_score_wraps_at_the_top() {
    let mut e = NodeEntry::new(U256::max_value(), Endpoint::V4([1, 2, 3, 4], 5), 800);
    e.compute_score(U256::zero());
    // 2^256 - 1 + (2^246 - 1) wraps to 2^246 - 2
    assert_eq!(e.score, U256::two_pow_k(246) - low(2));
}

#[test]
fn a_slow_peer_ranks_after_a_fast_one_at_the_same_distance() {
    let id = U256::from(0x10_0000u32);
    let mut fast = NodeEntry::new(id, Endpoint::V4([1, 1, 1, 1], 1), 0);
    let mut slow = NodeEntry::new(id, Endpoint::V4([2, 2, 2, 2], 2), 800);
    fast.compute_score(U256::zero());
    slow.compute_score(U256::zero());
    assert!(fast.score < slow.score);
    for _ in 0..3 {
        let merged = merge_ranked(&vec![slow], &vec![fast], 4);
        assert_eq!(merged[0].addr, fast.addr);
        assert_eq!(merged[1].addr, slow.addr);
        let mut ranked = Vec::new();
        insert_ranked(&mut ranked, slow, 4);
        insert_ranked(&mut ranked, fast, 4);
        assert_eq!(ranked[0].addr, fast.addr);
        assert_eq!(ranked[1].addr, slow.addr);
    }
}

#[test]
fn ties_keep_the_older_entry_first() {
    let mut a = NodeEntry::new(low(1), Endpoint::V4([1, 1, 1, 1], 1), 0);
    let mut b = NodeEntry::new(low(2), Endpoint::V4([2, 2, 2, 2], 2), 0);
    let mut c = NodeEntry::new(low(3), Endpoint::V4([3, 3, 3, 3], 3), 0);
    a.score = low(5);
    b.score = low(5);
    c.score = low(4);
    let mut ranked = Vec::new();
    insert_ranked(&mut ranked, a, 2);
    insert_ranked(&mut ranked, b, 2);
    assert_eq!(ids(&ranked), vec![low(1), low(2)]);
    insert_ranked(&mut ranked, c, 2);
    assert_eq!(ids(&ranked), vec![low(3), low(1)]);
    // a merge prefers the running list on a tie and keeps no more than asked
    let merged = merge_ranked(&vec![a], &vec![c, b], 2);
    assert_eq!(ids(&merged), vec![low(3), low(1)]);
    let merged = merge_ranked(&vec![b], &vec![a], 5);
    assert_eq!(ids(&merged), vec![low(2), low(1)]);
    assert!(merge_ranked(&vec![a], &vec![b], 0).is_empty());
}

#[test]
fn a_bucket_selects_its_closest_entries() {
    let mut bucket = KBucket::new(8);
    for byte in [9u8, 12, 8, 15, 10] {
        bucket.try_insert(peer(byte));
    }
    let found = bucket.select_n_closests(3, low(8));
    assert_eq!(ids(&found), vec![low(8), low(9), low(10)]);
    assert_eq!(found[1].distance, low(1));
    assert_eq!(found[1].score, low(1));
    assert_eq!(bucket.select_n_closests(0, low(8)).len(), 0);
    assert_eq!(bucket.select_n_closests(9, low(8)).len(), 5);
    // the stored entries were left unscored
    assert_eq!(bucket.entries()[0].score, U256::zero());
}

#[test]
fn two_entries_are_the_same_peer_when_their_ids_are() {
    let a = NodeEntry::new(low(1), Endpoint::V4([1, 1, 1, 1], 1), 0);
    let b = NodeEntry::new(low(1), Endpoint::V6([9; 16], 2), 50);
    let c = NodeEntry::new(low(2), Endpoint::V4([1, 1, 1, 1], 1), 0);
    assert!(a == b);
    assert!(a != c);
}

#[test]
fn a_probe_is_made_of_up_to_three_attempts() {
    assert_eq!(next_probe_step(1, Ok(12)), ProbeStep::Succeeded(12));
    assert_eq!(next_probe_step(3, Ok(0)), ProbeStep::Succeeded(0));
    assert_eq!(next_probe_step(1, Err(NetworkError::Timeout)), ProbeStep::Retry(200));
    assert_eq!(next_probe_step(2, Err(NetworkError::Connection)), ProbeStep::Retry(200));
    assert_eq!(
        next_probe_step(3, Err(NetworkError::WrongRPC)),
        ProbeStep::Failed(NetworkError::WrongRPC)
    );
    assert_eq!(
        next_probe_step(9, Err(NetworkError::Timeout)),
        ProbeStep::Failed(NetworkError::Timeout)
    );
}
