use pnyx_transp2p::buckets::{BucketTable, ALPHA, NUM_BUCKETS};

/// Peer identifiers in the layout of an identity multihash: a code byte, a length
/// byte, then 32 pseudo-random bytes.
fn build_peer_ids(n: usize, seed: u64) -> Vec<Vec<u8>> {
    let mut state = seed;
    let mut ids = Vec::new();
    for _ in 0..n {
        let mut id = vec![0x00u8, 0x20];
        for _ in 0..32 {
            state ^= state << 13;
            state ^= state >> 7;
            state ^= state << 17;
            id.push((state >> 24) as u8);
        }
        ids.push(id);
    }
    ids
}

fn id_with_word(word: u32) -> Vec<u8> {
    let mut id = vec![0x00u8, 0x20];
    id.extend_from_slice(&word.to_be_bytes());
    id.extend_from_slice(&[7u8; 28]);
    id
}

#[test]
fn check_saturation() {
    let peers = build_peer_ids(100, 0x9e37_79b9_7f4a_7c15);
    let mut tab = BucketTable::new(peers[0].clone());
    for index in 1..peers.len() - 1 {
        tab.PeerConnected(&peers[index]);
        println!(
            "\n====================round:{:?} \t saturation:{:?}====================\n",
            index,
            tab.get_saturation()
        );
        for bucket_index in 0..NUM_BUCKETS {
            println!("bucket index:{:?}, peers count:{:?}\n", bucket_index, tab.bucket_len(bucket_index));
        }
    }
    assert!((tab.get_saturation() as usize) < NUM_BUCKETS - 1);
}

#[test]
fn new_table_is_empty() {
    let mut tab = BucketTable::new(id_with_word(0));
    assert_eq!(tab.get_saturation(), 0);
    for i in 0..NUM_BUCKETS {
        assert_eq!(tab.bucket_len(i), 0);
    }
    assert!(tab.get_closet_peers(&id_with_word(5), 0).is_empty());
}

#[test]
fn peer_goes_to_bucket_of_leading_zeros() {
    let mut tab = BucketTable::new(id_with_word(0));
    // XOR distance 1 has 31 leading zeros: the last bucket.
    tab.PeerConnected(&id_with_word(1));
    assert_eq!(tab.bucket_len(31), 1);
    // XOR distance 0x8000_0000 has no leading zero: bucket 0.
    tab.PeerConnected(&id_with_word(0x8000_0000));
    assert_eq!(tab.bucket_len(0), 1);
    // XOR distance 0x0001_0000 has 15 leading zeros.
    tab.PeerConnected(&id_with_word(0x0001_0000));
    assert_eq!(tab.bucket_len(15), 1);
    // A distance of 0 (same word) is capped at the last bucket.
    tab.PeerConnected(&id_with_word(0));
    assert_eq!(tab.bucket_len(31), 2);
}

#[test]
fn connecting_twice_counts_once_and_disconnect_removes() {
    let mut tab = BucketTable::new(id_with_word(0));
    let p = id_with_word(0x4000_0000);
    tab.PeerConnected(&p);
    tab.PeerConnected(&p);
    assert_eq!(tab.bucket_len(1), 1);
    tab.PeerDisconnected(&p);
    assert_eq!(tab.bucket_len(1), 0);
    tab.PeerDisconnected(&p);
    assert_eq!(tab.bucket_len(1), 0);
}

#[test]
fn saturation_follows_full_buckets() {
    let mut tab = BucketTable::new(id_with_word(0));
    // Three peers in bucket 0 and three in bucket 1: buckets 0 and 1 are full,
    // and buckets 1.. hold at least ALPHA peers, so the saturation is 1.
    for w in [0x8000_0001u32, 0x8000_0002, 0x8000_0003, 0x4000_0001, 0x4000_0002, 0x4000_0003] {
        tab.PeerConnected(&id_with_word(w));
    }
    assert_eq!(tab.bucket_len(0), ALPHA);
    assert_eq!(tab.bucket_len(1), ALPHA);
    assert_eq!(tab.get_saturation(), 1);
    // Dropping one peer of bucket 1 leaves only bucket 0 full; buckets 0.. still
    // hold at least ALPHA peers.
    tab.PeerDisconnected(&id_with_word(0x4000_0003));
    assert_eq!(tab.get_saturation(), 0);
}

#[test]
fn saturation_steps_back_when_few_peers_remain_above() {
    let mut tab = BucketTable::new(id_with_word(0));
    for w in [0x8000_0001u32, 0x8000_0002, 0x8000_0003, 0x4000_0001, 0x4000_0002, 0x4000_0003] {
        tab.PeerConnected(&id_with_word(w));
    }
    // Buckets 0 and 1 are full; the buckets from 1 on hold 3 peers: saturation 1.
    assert_eq!(tab.get_saturation(), 1);
    tab.PeerConnected(&id_with_word(0x2000_0001));
    tab.PeerConnected(&id_with_word(0x2000_0002));
    tab.PeerConnected(&id_with_word(0x2000_0003));
    // Buckets 0..=2 are full; buckets from 2 on hold 3 peers: saturation 2.
    assert_eq!(tab.get_saturation(), 2);
}

#[test]
fn closest_peers_of_a_known_target_start_with_it() {
    let mut tab = BucketTable::new(id_with_word(0));
    let a = id_with_word(0x8000_0001);
    let b = id_with_word(0x8000_0002);
    let c = id_with_word(0x8000_0003);
    tab.PeerConnected(&a);
    tab.PeerConnected(&b);
    tab.PeerConnected(&c);
    // Saturation is 0 and the target's bucket 0 is within it.
    let r = tab.get_closet_peers(&b, 2);
    assert_eq!(r, vec![b.clone(), a.clone()]);
    let r = tab.get_closet_peers(&b, 0);
    assert_eq!(r, vec![b.clone(), a.clone(), c.clone()]);
}

#[test]
fn closest_peers_above_saturation_take_one_per_bucket_once_full() {
    let mut tab = BucketTable::new(id_with_word(0));
    let p1 = id_with_word(0x4000_0001);
    let p2 = id_with_word(0x2000_0001);
    let p3 = id_with_word(0x1000_0001);
    tab.PeerConnected(&p1);
    tab.PeerConnected(&p2);
    tab.PeerConnected(&p3);
    assert_eq!(tab.get_saturation(), 0);
    // The target lies in bucket 4, above the saturation: buckets 1..31 are
    // scanned; once the maximum is reached each later bucket still gives one peer.
    let target = id_with_word(0x0800_0001);
    let r = tab.get_closet_peers(&target, 1);
    assert_eq!(r, vec![p1.clone(), p2.clone(), p3.clone()]);
}

#[test]
fn connecting_peers_never_lowers_saturation() {
    let peers = build_peer_ids(60, 0x2545_f491_4f6c_dd1d);
    let mut tab = BucketTable::new(peers[0].clone());
    let mut last = tab.get_saturation();
    for peer in peers.iter().skip(1) {
        tab.PeerConnected(peer);
        let now = tab.get_saturation();
        assert!(now >= last);
        last = now;
    }
}
