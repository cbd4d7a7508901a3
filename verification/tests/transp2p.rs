use pnyx_transp2p::route_tab::{RouteItem, RouteItemsWithTime, RoutePathItem};
use pnyx_transp2p::transp2p::{
    CustomEventOut, FindRouteReq, FindRouteResp, PullDataReq, PullDataResp, RelayDataReq, Tag, Transp2pAction,
    Transp2pBehaviour, TransppEventOut,
};

fn id_with_word(word: u32) -> Vec<u8> {
    let mut id = vec![0x00u8, 0x20];
    id.extend_from_slice(&word.to_be_bytes());
    id.extend_from_slice(&[1u8; 28]);
    id
}

const DATA_HASH: [u8; 32] = [
    17, 192, 231, 155, 113, 195, 151, 108, 205, 12, 2, 209, 49, 14, 37, 22, 192, 142, 220, 157, 139, 111, 87,
    204, 214, 128, 214, 58, 77, 142, 114, 218,
];

const LONG_DATA_HASH: [u8; 32] = [
    1, 145, 195, 235, 90, 109, 33, 40, 80, 144, 51, 250, 180, 156, 176, 10, 33, 65, 98, 87, 164, 193, 4, 207, 245,
    238, 55, 209, 86, 224, 77, 178,
];

#[test]
fn event_ids_name_each_message_kind() {
    assert_eq!(TransppEventOut::PullDataEvt(PullDataReq { hash: vec![] }).id(), "pull_data");
    assert_eq!(TransppEventOut::PullDataRespEvt(PullDataResp { hash: vec![], data: vec![] }).id(), "push_data");
    let req = FindRouteReq {
        src: vec![],
        create_time: 0,
        dest: vec![],
        alpha: 0,
        pathes: None,
        ttl: 0,
        sign: vec![],
    };
    assert_eq!(TransppEventOut::FindRouteEvt(req).id(), "find_route_req");
    assert_eq!(TransppEventOut::NoEvent.id(), "none");
}

#[test]
fn connected_peers_are_the_closest_candidates() {
    let mut b = Transp2pBehaviour::new(id_with_word(0));
    let p = id_with_word(0x8000_0001);
    b.inject_connected(&p);
    assert_eq!(b.get_closet_peers(p.clone()), vec![p.clone()]);
    b.inject_disconnected(&p);
    assert!(b.get_closet_peers(p.clone()).is_empty());
}

#[test]
fn route_discovery_is_sent_to_closest_peers_and_expires() {
    let mut b = Transp2pBehaviour::new(id_with_word(0));
    let p1 = id_with_word(0x8000_0001);
    let p2 = id_with_word(0x8000_0002);
    b.inject_connected(&p1);
    b.inject_connected(&p2);
    let dest = id_with_word(0x8000_0003);
    let (req, targets) = b.find_route_at(dest.clone(), 2, 5, 1000);
    assert_eq!(req.src, id_with_word(0));
    assert_eq!(req.dest, dest);
    assert_eq!(req.create_time, 1000);
    assert_eq!((req.alpha, req.ttl), (2, 5));
    assert_eq!(targets, vec![p1.clone(), p2.clone()]);
    assert!(b.has_sent_route_request(&p1));
    b.expire_route_requests(1180);
    assert!(b.has_sent_route_request(&p1));
    b.expire_route_requests(1181);
    assert!(!b.has_sent_route_request(&p1));
    assert!(!b.has_sent_route_request(&p2));
}

#[test]
fn pulled_data_is_kept_only_when_its_hash_matches() {
    let mut b = Transp2pBehaviour::new(id_with_word(0));
    let from = id_with_word(9);
    let bad = PullDataResp { hash: vec![0u8; 32], data: vec![1, 2, 3] };
    assert!(b.onPullDataResp(&from, &bad, 0).is_empty());
    assert!(b.onPullData(&from, &vec![0u8; 32]).is_none());
    let good = PullDataResp { hash: DATA_HASH.to_vec(), data: vec![1, 2, 3] };
    assert!(b.onPullDataResp(&from, &good, 0).is_empty());
    assert_eq!(b.onPullData(&from, &DATA_HASH.to_vec()), Some(good));
}

fn leaf(next: u8) -> RoutePathItem {
    RoutePathItem { next: vec![next], pathes: None, min_ttl: 1, sign: None }
}

#[test]
fn sending_data_plans_requests_and_next_hops() {
    let mut b = Transp2pBehaviour::new(id_with_word(0));
    let t1 = vec![7u8, 1];
    let t2 = vec![7u8, 2];
    let items = vec![RouteItemsWithTime { create_time: 5, item: RouteItem { min_ttl: 1, pathes: vec![leaf(1)], sign: vec![] } }];
    assert!(b.add_route_items(t1.clone(), vec![3, 3], &items).is_ok());
    assert!(b.add_route_items(t1.clone(), vec![2], &items).is_ok());
    assert!(b.add_route_items(t2.clone(), vec![3, 3], &items).is_ok());
    let plan = b.send_peers_at(vec![t1.clone(), t2.clone(), vec![9]], 0, 99, vec![Tag(vec![4])], vec![1, 2, 3], 77);
    assert_eq!(plan.next_hops, vec![vec![2u8], vec![3u8, 3]]);
    assert_eq!(plan.hops, vec![vec![vec![2u8], vec![3u8, 3]], vec![vec![3u8, 3]], vec![]]);
    assert_eq!(plan.requests.len(), 3);
    let r = &plan.requests[1];
    assert_eq!(r.route_info.dest, t2);
    assert_eq!(r.route_info.src, id_with_word(0));
    assert_eq!((r.route_info.alpha, r.route_info.ttl, r.route_info.create_time), (3, 10, 77));
    assert_eq!(r.hash, DATA_HASH.to_vec());
    assert_eq!(r.data, vec![1, 2, 3]);
    assert_eq!(r.tags, vec![Tag(vec![4])]);
    // Short data travels inside the request and is not kept.
    assert!(b.onPullData(&t1, &DATA_HASH.to_vec()).is_none());
}

#[test]
fn long_data_is_kept_for_pulling() {
    let mut b = Transp2pBehaviour::new(id_with_word(0));
    let data = vec![7u8; 300];
    let plan = b.send_peers_at(vec![vec![1u8]], 2, 4, vec![], data.clone(), 1);
    assert_eq!(plan.requests[0].data, Vec::<u8>::new());
    assert_eq!((plan.requests[0].route_info.alpha, plan.requests[0].route_info.ttl), (2, 4));
    assert!(plan.next_hops.is_empty());
    let resp = b.onPullData(&vec![1u8], &LONG_DATA_HASH.to_vec()).unwrap();
    assert_eq!(resp.data, data);
}

fn route_req(src: &Vec<u8>, dest: &Vec<u8>, create_time: u64) -> FindRouteReq {
    FindRouteReq { src: src.clone(), create_time, dest: dest.clone(), alpha: 3, pathes: None, ttl: 5, sign: vec![] }
}

fn direct_item() -> RouteItem {
    RouteItem { min_ttl: 1, pathes: vec![], sign: vec![] }
}

#[test]
fn route_requests_are_recorded_and_answered_from_connected_routes() {
    let local = id_with_word(0);
    let mut b = Transp2pBehaviour::new(local.clone());
    let p = id_with_word(0x8000_0001);
    let q = id_with_word(0x4000_0001);
    let s = id_with_word(0x2000_0001);
    let d = id_with_word(0x1000_0001);
    b.inject_connected(&p);
    b.inject_connected(&q);
    // `p` passes on a request of `s` for `d`: the route to `s` through `p` is learnt,
    // nobody waits for `s` yet, and the request is to be passed on.
    let (acts, forward) = b.onFindRouteReq(&p, &route_req(&s, &d, 10), 100);
    assert!(acts.is_empty());
    assert!(forward);
    assert_eq!(b.connected_route_items(&s), Some(vec![direct_item()]));
    // `q` asks for `s`: it is answered with the route through `p`, and the request is
    // not passed on.
    let (acts, forward) = b.onFindRouteReq(&q, &route_req(&q, &s, 11), 101);
    assert!(!forward);
    let resp = FindRouteResp { dest: s.clone(), route: vec![direct_item()], sign: vec![] };
    assert_eq!(acts, vec![Transp2pAction::Send(q.clone(), TransppEventOut::FindRouteRespEvt(resp))]);
    // A request for ourselves is not passed on.
    let (_, forward) = b.onFindRouteReq(&p, &route_req(&s, &local, 12), 102);
    assert!(!forward);
}

#[test]
fn requests_from_peers_we_asked_are_ignored() {
    let mut b = Transp2pBehaviour::new(id_with_word(0));
    let p = id_with_word(0x8000_0001);
    b.inject_connected(&p);
    let (_, targets) = b.find_route_at(id_with_word(0x8000_0005), 3, 5, 50);
    assert_eq!(targets, vec![p.clone()]);
    let (acts, forward) = b.onFindRouteReq(&p, &route_req(&p, &id_with_word(7), 51), 51);
    assert!(acts.is_empty());
    assert!(!forward);
    assert_eq!(b.connected_route_items(&p), None);
}

#[test]
fn passed_on_route_requests_carry_the_hop_they_came_from() {
    let mut b = Transp2pBehaviour::new(id_with_word(0));
    let p = id_with_word(0x8000_0001);
    let from = id_with_word(0x8000_0002);
    b.inject_connected(&p);
    let req = route_req(&id_with_word(5), &id_with_word(0x8000_0009), 20);
    let acts = b.doFindReqRelay(&from, &req, 30);
    let hop = RoutePathItem { next: from.clone(), pathes: None, min_ttl: 1, sign: None };
    let relayed = FindRouteReq { pathes: Some(vec![hop]), ..req.clone() };
    assert_eq!(acts, vec![Transp2pAction::Send(p.clone(), TransppEventOut::FindRouteEvt(relayed))]);
    assert!(b.has_sent_route_request(&req.dest));
}

fn relay(dest: &Vec<u8>, data: Vec<u8>) -> RelayDataReq {
    RelayDataReq {
        route_info: route_req(&id_with_word(5), dest, 40),
        hash: DATA_HASH.to_vec(),
        tags: vec![],
        data,
        sign_packet: vec![],
    }
}

#[test]
fn relayed_data_for_us_is_reported() {
    let local = id_with_word(0);
    let mut b = Transp2pBehaviour::new(local.clone());
    let p = id_with_word(0x8000_0001);
    let req = relay(&local, vec![1, 2, 3]);
    let acts = b.onDataRelay(&p, &req, 60);
    assert_eq!(
        acts,
        vec![Transp2pAction::Report(CustomEventOut::DataRelay(req.route_info.clone(), DATA_HASH.to_vec(), vec![1, 2, 3]))]
    );
}

#[test]
fn relayed_data_goes_on_along_known_routes_once() {
    let local = id_with_word(0);
    let mut b = Transp2pBehaviour::new(local.clone());
    let p = id_with_word(0x8000_0001);
    let next = id_with_word(0x8000_0002);
    let d = id_with_word(0x8000_0003);
    let items = vec![RouteItemsWithTime { create_time: 1, item: direct_item() }];
    assert!(b.add_route_items(d.clone(), next.clone(), &items).is_ok());
    let req = relay(&d, vec![1, 2, 3]);
    let acts = b.onDataRelay(&p, &req, 60);
    let hop = RoutePathItem { next: p.clone(), pathes: None, min_ttl: 1, sign: None };
    let mut on = req.clone();
    on.route_info.pathes = Some(vec![hop]);
    assert_eq!(acts, vec![Transp2pAction::Send(next.clone(), TransppEventOut::RelayDataEvt(on))]);
    // The same data to the same destination is not relayed twice.
    assert!(b.onDataRelay(&id_with_word(0x8000_0004), &req, 61).is_empty());
}

#[test]
fn data_without_a_route_waits_for_one() {
    let local = id_with_word(0);
    let mut b = Transp2pBehaviour::new(local.clone());
    let p = id_with_word(0x8000_0001);
    let helper = id_with_word(0x8000_0002);
    let d = id_with_word(0x8000_0003);
    b.inject_connected(&helper);
    let req = relay(&d, vec![1, 2, 3]);
    // No route to `d`: a route request goes to the closest peer.
    let acts = b.onDataRelay(&p, &req, 60);
    let find = FindRouteReq { src: local.clone(), create_time: 60, dest: d.clone(), alpha: 3, pathes: None, ttl: 5, sign: vec![] };
    assert_eq!(acts, vec![Transp2pAction::Send(helper.clone(), TransppEventOut::FindRouteEvt(find))]);
    // Once `helper` answers with a route, the waiting data is relayed, as our own, when
    // we hold it.
    assert!(b.onPullDataResp(&p, &PullDataResp { hash: DATA_HASH.to_vec(), data: vec![1, 2, 3] }, 61).is_empty());
    let answer = FindRouteResp { dest: d.clone(), route: vec![direct_item()], sign: vec![] };
    let acts = b.onFindRouteResp(&helper, &answer, 62);
    // `p`, which asked for `d` when it sent the data, is answered too.
    let to_p = FindRouteResp { dest: d.clone(), route: vec![direct_item()], sign: vec![] };
    assert_eq!(
        acts,
        vec![
            Transp2pAction::Send(helper.clone(), TransppEventOut::RelayDataEvt(req.clone())),
            Transp2pAction::Send(p.clone(), TransppEventOut::FindRouteRespEvt(to_p)),
        ]
    );
}

#[test]
fn missing_data_is_pulled_then_served_to_waiting_requests() {
    let local = id_with_word(0);
    let mut b = Transp2pBehaviour::new(local.clone());
    let p = id_with_word(0x8000_0001);
    let req = relay(&local, vec![]);
    let acts = b.onDataRelay(&p, &req, 70);
    assert_eq!(
        acts,
        vec![Transp2pAction::Send(p.clone(), TransppEventOut::PullDataEvt(PullDataReq { hash: DATA_HASH.to_vec() }))]
    );
    let acts = b.onPullDataResp(&p, &PullDataResp { hash: DATA_HASH.to_vec(), data: vec![1, 2, 3] }, 71);
    assert_eq!(
        acts,
        vec![Transp2pAction::Report(CustomEventOut::DataRelay(req.route_info.clone(), DATA_HASH.to_vec(), vec![1, 2, 3]))]
    );
    // The waiting request is served once.
    assert!(b.onPullDataResp(&p, &PullDataResp { hash: DATA_HASH.to_vec(), data: vec![1, 2, 3] }, 72).is_empty());
}

#[test]
fn overdue_retrievals_drop_their_last_peer_and_ask_the_first() {
    let local = id_with_word(0);
    let mut b = Transp2pBehaviour::new(local.clone());
    let p = id_with_word(0x8000_0001);
    let q = id_with_word(0x8000_0002);
    let req = relay(&local, vec![]);
    assert_eq!(b.onDataRelay(&p, &req, 100).len(), 1);
    // A second holder is only noted.
    let req2 = relay(&local, vec![]);
    assert!(b.onDataRelay(&q, &req2, 101).is_empty());
    // Not overdue yet.
    assert!(b.tick_at(103).is_empty());
    // Overdue: `q` is dropped and `p` is asked again.
    let acts = b.tick_at(104);
    assert_eq!(
        acts,
        vec![Transp2pAction::Send(p.clone(), TransppEventOut::PullDataEvt(PullDataReq { hash: DATA_HASH.to_vec() }))]
    );
    // Overdue again with a single peer left: the retrieval is given up.
    assert!(b.tick_at(108).is_empty());
    assert!(b.tick_at(200).is_empty());
}

#[test]
fn messages_go_to_their_handlers() {
    let mut b = Transp2pBehaviour::new(id_with_word(0));
    let p = id_with_word(0x8000_0001);
    let resp = PullDataResp { hash: DATA_HASH.to_vec(), data: vec![1, 2, 3] };
    let sent = PullDataResp { hash: DATA_HASH.to_vec(), data: vec![1, 2, 3] };
    let acts = b.on_custom_message_at(&p, &TransppEventOut::PullDataRespEvt(sent), 5);
    assert!(acts.is_empty());
    let acts = b.on_custom_message_at(&p, &TransppEventOut::PullDataEvt(PullDataReq { hash: DATA_HASH.to_vec() }), 6);
    assert_eq!(acts, vec![Transp2pAction::Send(p.clone(), TransppEventOut::PullDataRespEvt(resp))]);
    assert!(b.on_custom_message_at(&p, &TransppEventOut::NoEvent, 7).is_empty());
}

#[test]
fn the_clock_driven_entry_points_use_the_current_time() {
    let local = id_with_word(0);
    let mut b = Transp2pBehaviour::new(local.clone());
    let p = id_with_word(0x8000_0001);
    b.inject_connected(&p);
    let (req, targets) = b.findRoute(id_with_word(0x8000_0007), 1, 4).unwrap();
    assert!(req.create_time > 1_600_000_000);
    assert_eq!(targets, vec![p.clone()]);
    assert!(b.on_tick().is_empty());
    let acts = b.on_custom_message(&p, &TransppEventOut::NoEvent).unwrap();
    assert!(acts.is_empty());
}

#[test]
fn a_pull_request_is_answered_without_the_clock() {
    let mut b = Transp2pBehaviour::new(id_with_word(0));
    let p = id_with_word(0x8000_0001);
    let acts = b.on_custom_message(&p, &TransppEventOut::PullDataEvt(PullDataReq { hash: DATA_HASH.to_vec() })).unwrap();
    assert!(acts.is_empty());
}

#[test]
fn a_short_destination_is_relayed_when_a_route_is_held() {
    let mut b = Transp2pBehaviour::new(id_with_word(0));
    let next = id_with_word(0x8000_0002);
    let d = vec![7u8, 7];
    let items = vec![RouteItemsWithTime { create_time: 1, item: direct_item() }];
    assert!(b.add_route_items(d.clone(), next.clone(), &items).is_ok());
    let req = relay(&d, vec![1, 2, 3]);
    let acts = b.doDataRelay(&id_with_word(0), &req, 5);
    assert_eq!(acts, vec![Transp2pAction::Send(next.clone(), TransppEventOut::RelayDataEvt(req.clone()))]);
}

#[test]
fn every_peer_asked_for_a_route_is_recorded() {
    let mut b = Transp2pBehaviour::new(id_with_word(0));
    let peers = vec![id_with_word(0x8000_0001), id_with_word(0x8000_0002), id_with_word(0x8000_0003)];
    for p in &peers {
        b.inject_connected(p);
    }
    let (_, targets) = b.find_route_at(id_with_word(0x8000_0009), 3, 5, 70);
    assert_eq!(targets.len(), 3);
    for p in &targets {
        assert!(b.has_sent_route_request(p));
    }
}

#[test]
fn the_least_recently_recorded_route_request_leaves_a_full_record() {
    let mut b = Transp2pBehaviour::new(id_with_word(0));
    let from = id_with_word(0x8000_0002);
    let dest_of = |i: u32| id_with_word(0x4000_0000 + i);
    for i in 0..1024u32 {
        b.doFindReqRelay(&from, &route_req(&id_with_word(5), &dest_of(i), 20), 30);
    }
    assert!(b.has_sent_route_request(&dest_of(0)));
    // Recording the first destination again makes it the most recently recorded.
    b.doFindReqRelay(&from, &route_req(&id_with_word(5), &dest_of(0), 20), 31);
    b.doFindReqRelay(&from, &route_req(&id_with_word(5), &dest_of(5000), 20), 31);
    assert!(b.has_sent_route_request(&dest_of(0)));
    assert!(!b.has_sent_route_request(&dest_of(1)));
    assert!(b.has_sent_route_request(&dest_of(2)));
    assert!(b.has_sent_route_request(&dest_of(5000)));
}
