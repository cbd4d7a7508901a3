use pnyx_transp2p::route_tab::{
    from_map, prune_next_hop_times, to_map, RouteItem, RouteItemsWithTime, RoutePathItem, RouteTable,
};
use std::collections::HashMap;

struct Lcg(u64);

impl Lcg {
    fn next_u8(&mut self) -> u8 {
        self.0 = self.0.wrapping_mul(6364136223846793005).wrapping_add(1442695040888963407);
        (self.0 >> 33) as u8
    }
}

fn build_peer_ids(n: usize) -> Vec<Vec<u8>> {
    (0..n)
        .map(|i| {
            let mut id = vec![0x00u8, 0x20];
            id.extend((0..32).map(|j| ((i * 31 + j * 7) % 251) as u8));
            id
        })
        .collect()
}

fn extend_path_item(item: &mut RoutePathItem, level: u8, max_branch: u8, peers: &Vec<Vec<u8>>, rng: &mut Lcg) {
    if level == 0 {
        item.pathes = None;
        return;
    }
    let x = rng.next_u8();
    let to_branch = x % 4;
    println!("level:{:?}, branch:{:?}", level, to_branch);
    if to_branch == 0 {
        item.pathes = None;
    } else {
        let mut pathes = vec![];
        for _i in 0..to_branch as usize {
            let mut sub_item = RoutePathItem {
                next: peers[x as usize % 99].clone(),
                pathes: None,
                min_ttl: 1,
                sign: None,
            };
            extend_path_item(&mut sub_item, level - 1, max_branch, peers, rng);
            pathes.push(sub_item);
        }
        item.pathes = Some(pathes);
        item.update_min_ttl();
    }
}

#[test]
fn route_path_item_get_ttl() {
    let peers = build_peer_ids(100);
    let mut rng = Lcg(12);
    let mut one_hop = RoutePathItem { next: peers[0].clone(), pathes: None, min_ttl: 1, sign: None };
    assert_eq!(one_hop.getMinTTL(), 1);

    extend_path_item(&mut one_hop, 12, 3, &peers, &mut rng);
    println!("==================== pathes with min_ttl {:?}=====================", one_hop.getMinTTL());
    println!("pathes:{:?}", one_hop.print());
    // Every leaf has ttl 1 and an inner node takes the smallest ttl of its branches.
    assert_eq!(one_hop.getMinTTL(), 1);
}

fn leaf(next: u8, ttl: u8) -> RoutePathItem {
    RoutePathItem { next: vec![next], pathes: None, min_ttl: ttl, sign: None }
}

fn node(next: u8, pathes: Vec<RoutePathItem>) -> RoutePathItem {
    RoutePathItem { next: vec![next], pathes: Some(pathes), min_ttl: 0, sign: None }
}

#[test]
fn update_min_ttl_sets_leaves_to_one_and_takes_branch_minimum() {
    let mut t = node(1, vec![leaf(2, 9), node(3, vec![])]);
    t.update_min_ttl();
    let pathes = t.pathes.as_ref().unwrap();
    assert_eq!(pathes[0].min_ttl, 1);
    // An empty branch list has the invalid ttl 255.
    assert_eq!(pathes[1].min_ttl, 255);
    assert_eq!(t.min_ttl, 1);
    let mut empty = node(4, vec![]);
    empty.update_min_ttl();
    assert_eq!(empty.getMinTTL(), 255);
    // A second update changes nothing.
    let once = t.clone();
    t.update_min_ttl();
    assert_eq!(t, once);
}

#[test]
fn path_contains_checks_next_hop_and_every_branch() {
    let mine = node(1, vec![leaf(2, 1), node(3, vec![leaf(4, 1)])]);
    assert!(mine.contains(&node(1, vec![leaf(2, 1)])));
    assert!(mine.contains(&node(1, vec![node(3, vec![leaf(4, 1)]), leaf(2, 7)])));
    assert!(mine.contains(&node(1, vec![])));
    assert!(!mine.contains(&node(9, vec![leaf(2, 1)])));
    assert!(!mine.contains(&node(1, vec![leaf(5, 1)])));
    // A leaf is covered only by a leaf.
    assert!(!mine.contains(&leaf(1, 1)));
    assert!(leaf(1, 1).contains(&leaf(1, 3)));
    assert!(!leaf(1, 1).contains(&node(1, vec![leaf(2, 1)])));
    assert!(mine.contains(&mine.clone()));
}

fn item(pathes: Vec<RoutePathItem>, ttl: u8) -> RouteItem {
    RouteItem { min_ttl: ttl, pathes, sign: vec![] }
}

#[test]
fn build_min_ttl_is_one_more_than_smallest_branch() {
    let mut it = item(vec![leaf(1, 3), leaf(2, 1), leaf(3, 5)], 0);
    it.buildMinTTL();
    assert_eq!(it.min_ttl, 2);
}

#[test]
fn merge_route_item_appends_uncovered_and_keeps_smaller_ttl() {
    let mut a = item(vec![leaf(1, 1)], 4);
    let b = item(vec![leaf(2, 1)], 2);
    assert!(!a.contains(&b));
    a.merge_route_item(&b);
    assert_eq!(a.pathes, vec![leaf(1, 1), leaf(2, 1)]);
    assert_eq!(a.min_ttl, 2);
    assert!(a.contains(&b));
    // Merging a covered item only updates the ttl.
    let c = item(vec![leaf(1, 6)], 9);
    a.merge_route_item(&c);
    assert_eq!(a.pathes.len(), 2);
    assert_eq!(a.min_ttl, 2);
}

fn timed(create_time: u64, pathes: Vec<RoutePathItem>) -> RouteItemsWithTime {
    RouteItemsWithTime { create_time, item: item(pathes, 1) }
}

#[test]
fn merge_appends_uncovered_branches_that_fit() {
    let mut t = timed(5, vec![leaf(1, 2)]);
    t.merge(&node(7, vec![leaf(1, 2), leaf(2, 3)]));
    assert_eq!(t.item.pathes, vec![leaf(1, 2), leaf(2, 3)]);
    assert_eq!(t.create_time, 5);
}

#[test]
fn merge_ignores_covered_branches() {
    let mut t = timed(5, vec![leaf(1, 2), leaf(2, 2), leaf(3, 2)]);
    t.merge(&node(7, vec![leaf(1, 9), leaf(3, 9)]));
    assert_eq!(t.item.pathes, vec![leaf(1, 2), leaf(2, 2), leaf(3, 2)]);
    t.merge(&leaf(7, 1));
    assert_eq!(t.item.pathes.len(), 3);
}

#[test]
fn merge_keeps_the_least_new_branch_and_two_least_others_when_they_do_not_fit() {
    let mut t = timed(5, vec![leaf(1, 5), leaf(2, 2)]);
    t.merge(&node(7, vec![leaf(3, 4), leaf(4, 1), leaf(5, 3)]));
    // The new branch of least ttl (1), then the two of least ttl among the rest (2, 3).
    assert_eq!(t.item.pathes, vec![leaf(4, 1), leaf(2, 2), leaf(5, 3)]);
}

#[test]
fn merge_into_a_full_list_replaces_by_ttl() {
    let mut t = timed(5, vec![leaf(1, 1), leaf(2, 1), leaf(6, 4)]);
    t.merge(&node(7, vec![leaf(3, 1), leaf(4, 2)]));
    assert_eq!(t.item.pathes, vec![leaf(3, 1), leaf(1, 1), leaf(2, 1)]);
    let mut t = timed(5, vec![leaf(1, 1), leaf(2, 1)]);
    t.merge(&node(7, vec![leaf(3, 1), leaf(4, 2)]));
    assert_eq!(t.item.pathes, vec![leaf(3, 1), leaf(1, 1), leaf(2, 1)]);
}

#[test]
fn maps_round_trip() {
    let v = vec![timed(3, vec![leaf(1, 1)]), timed(1, vec![leaf(2, 1)]), timed(3, vec![leaf(4, 1)])];
    let m = to_map(&v);
    assert_eq!(m.len(), 2);
    assert_eq!(m.get(&3).unwrap().pathes, vec![leaf(4, 1)]);
    let back = from_map(&m);
    assert_eq!(back.len(), 2);
    let m2 = to_map(&back);
    assert_eq!(m2, m);
}

fn now_secs() -> u64 {
    std::time::SystemTime::now().duration_since(std::time::UNIX_EPOCH).unwrap().as_secs()
}

#[test]
fn prune_drops_oldest_expired_route_else_largest_ttl() {
    let now = now_secs();
    let mut m: HashMap<u64, RouteItem> = HashMap::new();
    for (t, ttl) in [(now - 10, 1u8), (now - 20, 6), (now - 30, 2), (now - 40, 3)] {
        m.insert(t, item(vec![leaf(1, 1)], ttl));
    }
    let mut a = m.clone();
    prune_next_hop_times(&mut a, now);
    assert_eq!(a.len(), 3);
    assert!(!a.contains_key(&(now - 20)));
    let mut b = m.clone();
    b.insert(now - 700, item(vec![leaf(1, 1)], 1));
    prune_next_hop_times(&mut b, now);
    assert_eq!(b.len(), 4);
    assert!(!b.contains_key(&(now - 700)));
    let mut c: HashMap<u64, RouteItem> = HashMap::new();
    c.insert(now, item(vec![], 1));
    c.insert(now - 1, item(vec![], 1));
    prune_next_hop_times(&mut c, now);
    assert_eq!(c.len(), 1);
    assert!(c.contains_key(&(now - 1)));
}

#[test]
fn route_table_adds_merges_and_prunes() {
    let mut table = RouteTable::new();
    let target = vec![9u8, 9];
    let next = vec![5u8];
    assert!(table.get(target.clone()).is_none());
    assert!(table.add_route_items(target.clone(), next.clone(), &vec![timed(100, vec![leaf(1, 1)])]).is_ok());
    let hops = table.get(target.clone()).unwrap();
    assert_eq!(hops.len(), 1);
    assert_eq!(hops[0].next, next);
    assert_eq!(hops[0].times.len(), 1);
    // Same time: merged into the held item.
    assert!(table.add_route_items(target.clone(), next.clone(), &vec![timed(100, vec![leaf(2, 1)])]).is_ok());
    let hops = table.get(target.clone()).unwrap();
    assert_eq!(hops[0].times.get(&100).unwrap().pathes, vec![leaf(1, 1), leaf(2, 1)]);
    // Another next hop for the same target.
    assert!(table.add_route_items(target.clone(), vec![6u8], &vec![timed(100, vec![leaf(3, 1)])]).is_ok());
    assert_eq!(table.get(target.clone()).unwrap().len(), 2);
    // New times: at most three are kept, the expired oldest is dropped first.
    let now = now_secs();
    let items = vec![timed(now - 5, vec![leaf(1, 1)]), timed(now - 6, vec![leaf(1, 1)]), timed(now - 7, vec![leaf(1, 1)])];
    assert!(table.add_route_items(target.clone(), next.clone(), &items).is_ok());
    let hops = table.get(target.clone()).unwrap();
    let entry = hops.iter().find(|h| h.next == next).unwrap();
    assert_eq!(entry.times.len(), 3);
    assert!(!entry.times.contains_key(&100));
}

fn sha256_peer(fill: u8) -> Vec<u8> {
    let mut id = vec![0x12u8, 0x20];
    id.extend(std::iter::repeat(fill).take(32));
    id
}

#[test]
fn print_writes_each_hop_by_its_base58_peer_id() {
    let leaf_item = RoutePathItem { next: sha256_peer(2), pathes: None, min_ttl: 1, sign: None };
    let tree = RoutePathItem { next: sha256_peer(1), pathes: Some(vec![leaf_item]), min_ttl: 1, sign: None };
    let expected = "{\"next\":\"QmNQa1FSTXNHmrjjfgUW3Px3Vkke4oKiFWdigWkYSux2Pi\",\"pathes\":[{\"next\":\"QmNUVJPjvXxb55spvBuoNKEvGWzoGzzmwLC8MAovVWhMiR\",\"pathes\":\"None\"},]}";
    assert_eq!(tree.print(), expected);
    assert_eq!(tree.try_print(), Some(expected.to_string()));
}

#[test]
fn try_print_refuses_a_hop_that_is_no_peer_id() {
    let bad = RoutePathItem { next: vec![1, 1, 5], pathes: None, min_ttl: 1, sign: None };
    let tree = RoutePathItem { next: sha256_peer(1), pathes: Some(vec![bad]), min_ttl: 1, sign: None };
    assert_eq!(tree.try_print(), None);
}

fn timed_ttl(create_time: u64, ttl: u8) -> RouteItemsWithTime {
    RouteItemsWithTime { create_time, item: item(vec![leaf(1, 1)], ttl) }
}

#[test]
fn adding_at_a_given_time_drops_the_expired_oldest_route() {
    let mut table = RouteTable::new();
    let target = vec![4u8, 4];
    let next = vec![8u8];
    let first = vec![timed_ttl(1000, 1), timed_ttl(1001, 1), timed_ttl(1002, 1)];
    table.add_route_items_at(target.clone(), next.clone(), &first, 1002);
    table.add_route_items_at(target.clone(), next.clone(), &vec![timed_ttl(2000, 1)], 2000);
    let hops = table.get(target.clone()).unwrap();
    let mut times: Vec<u64> = hops[0].times.keys().copied().collect();
    times.sort();
    assert_eq!(times, vec![1001, 1002, 2000]);
}

#[test]
fn adding_at_a_given_time_drops_the_largest_ttl_route_when_none_expired() {
    let mut table = RouteTable::new();
    let target = vec![4u8, 5];
    let next = vec![8u8];
    let first = vec![timed_ttl(1000, 2), timed_ttl(1001, 5), timed_ttl(1002, 1)];
    table.add_route_items_at(target.clone(), next.clone(), &first, 1002);
    table.add_route_items_at(target.clone(), next.clone(), &vec![timed_ttl(1003, 1)], 1100);
    let hops = table.get(target.clone()).unwrap();
    let mut times: Vec<u64> = hops[0].times.keys().copied().collect();
    times.sort();
    assert_eq!(times, vec![1000, 1002, 1003]);
}
