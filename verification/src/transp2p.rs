//! Routed data transfer between peers: route discovery requests, relayed data, and
//! pulling data by hash. The behaviour keeps the distance buckets, the route table
//! and its caches; writing packets to peers is left to its caller.
use vstd::prelude::*;
use crate::buckets::{bucket_of, closest_peers, holds_peer, with_peer, without_peer, BucketTable, BucketTableView};
use crate::byte_order::{insert_sorted_unique, strictly_sorted};
use crate::bytes::{bytes_equal, contains_bytes, copy_bytes, keys_view};
use crate::clock::{unix_now_secs, ClockError};
use crate::hashing::{blake2_256_hash, blake2_hash};
use crate::lru_cache::{
    bounded, data_cache_cap, data_cache_entries, data_cache_get, data_cache_new, data_cache_put,
    put_result, sent_cache_cap, sent_cache_entries, sent_cache_order, lemma_without_keys_insert,
    lemma_without_no_keys, lemma_lru_used_suffix, lru_consistent, lru_stored, lru_used, lru_uses, without_keys, sent_cache_keys, sent_cache_new, sent_cache_peek,
    sent_cache_pop, sent_cache_put, DataCache, SentCache, list_cache_cap, list_cache_entries, list_cache_new,
    list_cache_peek, list_cache_pop, list_cache_put, retrieve_cache_cap, retrieve_cache_entries, retrieve_cache_keys,
    retrieve_cache_new, retrieve_cache_peek, retrieve_cache_pop, retrieve_cache_put, wait_cache_cap, wait_cache_entries,
    wait_cache_new, wait_cache_pop, wait_cache_put, queue_cache_cap, queue_cache_entries, queue_cache_new,
    queue_cache_pop, queue_cache_put, ListCache, QueueCache, RetrieveCache, WaitCache,
};
use crate::route_tab::{
    clone_paths, from_map, hops_view, lemma_hops_distinct, lemma_times_to_map_distinct, paths_view, routes_added, routes_added_at, times_to_map,
    with_min_ttl, min_ttl_of, seq_min_ttl, RouteItemsWithTime, RouteItemsWithTimeView, INVALID_TTL,
    time_map_view, times_view, HopsView, PathView, RouteItem, RouteItemView, RoutePathItem, RouteTable,
    RouteTableView,
};

verus! {

/// Number of route requests remembered.
pub const MAX_ROUTE_PENDING_ITEM: usize = 1024;

/// Number of data items kept for pulling.
pub const MAX_DATA_CACHE_COUNT: usize = 128;

/// Spread of a request when none (or too large a one) is asked for.
pub const DEFAULT_ALPHA: usize = 3;

/// Hop limit of a request when none (or too large a one) is asked for.
pub const DEFAULT_MAX_TTL: usize = 10;

/// Longest data carried inside a relay request; longer data is kept for pulling.
pub const MAX_DIRECT_PACKET: usize = 256;

/// Seconds a sent route request is remembered.
pub const MAX_ROUTE_REQ_TIME: u64 = 180;

/// Seconds after which a request for data is given up on its last peer.
pub const MAX_DATA_RETRIEVE: u64 = 3;

/// A tag that data can carry.
#[derive(Debug, PartialEq, Eq)]
pub struct Tag(pub Vec<u8>);

/// A route discovery request.
#[derive(Debug, PartialEq, Eq)]
pub struct FindRouteReq {
    pub src: Vec<u8>,
    /// When the route was requested, in seconds since the Unix epoch.
    pub create_time: u64,
    pub dest: Vec<u8>,
    pub alpha: u8,
    /// The path travelled so far (none at the source).
    pub pathes: Option<Vec<RoutePathItem>>,
    pub ttl: u8,
    pub sign: Vec<u8>,
}

/// A request to relay data along a route.
#[derive(Debug, PartialEq, Eq)]
pub struct RelayDataReq {
    pub route_info: FindRouteReq,
    pub hash: Vec<u8>,
    pub tags: Vec<Tag>,
    /// The data itself when it is short, else empty (the data is then pulled by hash).
    pub data: Vec<u8>,
    pub sign_packet: Vec<u8>,
}

/// The answer to a route discovery request.
#[derive(Debug, PartialEq, Eq)]
pub struct FindRouteResp {
    pub dest: Vec<u8>,
    pub route: Vec<RouteItem>,
    pub sign: Vec<u8>,
}

/// A request for the data of a hash.
#[derive(Debug, PartialEq, Eq)]
pub struct PullDataReq {
    pub hash: Vec<u8>,
}

/// The data of a hash.
#[derive(Debug, PartialEq, Eq)]
pub struct PullDataResp {
    pub hash: Vec<u8>,
    pub data: Vec<u8>,
}

/// The messages exchanged by the behaviour.
#[derive(Debug, PartialEq, Eq)]
pub enum TransppEventOut {
    FindRouteEvt(FindRouteReq),
    FindRouteRespEvt(FindRouteResp),
    RelayDataEvt(RelayDataReq),
    PullDataEvt(PullDataReq),
    PullDataRespEvt(PullDataResp),
    NoEvent,
}

impl TransppEventOut {
    /// The name under which a message is counted.
    pub fn id(&self) -> (r: &'static str)
        ensures
            r@ == match self {
                TransppEventOut::PullDataEvt(_) => "pull_data"@,
                TransppEventOut::PullDataRespEvt(_) => "push_data"@,
                TransppEventOut::FindRouteEvt(_) => "find_route_req"@,
                TransppEventOut::FindRouteRespEvt(_) => "find_route_resp"@,
                TransppEventOut::RelayDataEvt(_) => "relay_data_req"@,
                TransppEventOut::NoEvent => "none"@,
            },
    {
        match self {
            TransppEventOut::PullDataEvt(_) => "pull_data",
            TransppEventOut::PullDataRespEvt(_) => "push_data",
            TransppEventOut::FindRouteEvt(_) => "find_route_req",
            TransppEventOut::FindRouteRespEvt(_) => "find_route_resp",
            TransppEventOut::RelayDataEvt(_) => "relay_data_req",
            TransppEventOut::NoEvent => "none",
        }
    }
}

/// What the behaviour hands to its subscribers.
#[derive(Debug, PartialEq, Eq)]
pub enum CustomEventOut {
    /// Data carried by the push/pull exchange, from a peer.
    TransppData(Vec<u8>, Vec<u8>),
    PeerConnected(Vec<u8>),
    PeerDisconnected(Vec<u8>),
    /// The routes to a peer changed.
    RouteUpdated(Vec<u8>),
    /// Relayed data reached us: the route it travelled, its hash and the data.
    DataRelay(FindRouteReq, Vec<u8>, Vec<u8>),
    /// A peer asked for the data of a hash.
    PullData(Vec<u8>, Vec<u8>),
    /// A peer sent the data of a hash.
    PullDataResp(Vec<u8>, Vec<u8>),
    NoEvent,
}

/// What the caller of the behaviour is to do.
#[derive(Debug, PartialEq, Eq)]
pub enum Transp2pAction {
    /// Send a message to a peer.
    Send(Vec<u8>, TransppEventOut),
    /// Hand an event to the subscribers.
    Report(CustomEventOut),
}

impl Clone for CustomEventOut {
    fn clone(&self) -> (r: Self) {
        match self {
            CustomEventOut::TransppData(p, d) => CustomEventOut::TransppData(copy_bytes(p), copy_bytes(d)),
            CustomEventOut::PeerConnected(p) => CustomEventOut::PeerConnected(copy_bytes(p)),
            CustomEventOut::PeerDisconnected(p) => CustomEventOut::PeerDisconnected(copy_bytes(p)),
            CustomEventOut::RouteUpdated(p) => CustomEventOut::RouteUpdated(copy_bytes(p)),
            CustomEventOut::DataRelay(q, h, d) => CustomEventOut::DataRelay(q.clone(), copy_bytes(h), copy_bytes(d)),
            CustomEventOut::PullData(p, h) => CustomEventOut::PullData(copy_bytes(p), copy_bytes(h)),
            CustomEventOut::PullDataResp(p, h) => CustomEventOut::PullDataResp(copy_bytes(p), copy_bytes(h)),
            CustomEventOut::NoEvent => CustomEventOut::NoEvent,
        }
    }
}

/// The models of a list of route items.
pub open spec fn items_view(v: Vec<RouteItem>) -> Seq<RouteItemView> {
    Seq::new(v@.len(), |i: int| v@[i]@)
}

/// `a` sends `to` the answer, for `dest`, holding the route items `route`.
pub open spec fn sends_route_resp(a: Transp2pAction, to: Seq<u8>, dest: Seq<u8>, route: Seq<RouteItemView>) -> bool {
    &&& a matches Transp2pAction::Send(p, TransppEventOut::FindRouteRespEvt(resp))
    &&& p@ == to
    &&& resp.dest@ == dest
    &&& items_view(resp.route) == route
    &&& resp.sign@.len() == 0
}

/// Some next hop of `hops` is a connected peer.
pub open spec fn has_connected_hop(hops: HopsView, b: BucketTableView) -> bool {
    exists|n: Seq<u8>| #[trigger] hops.contains_key(n) && holds_peer(b, n)
}

/// The route items held under the connected next hops of `hops`.
pub open spec fn connected_items(hops: HopsView, b: BucketTableView) -> Set<RouteItemView> {
    Set::new(
        |v: RouteItemView|
            exists|n: Seq<u8>, t: u64|
                #![trigger hops[n][t]]
                hops.contains_key(n) && holds_peer(b, n) && hops[n].contains_key(t) && hops[n][t] == v,
    )
}

/// Copies of a list of route items.
fn clone_items(v: &Vec<RouteItem>) -> (r: Vec<RouteItem>)
    ensures
        items_view(r) == items_view(*v),
{
    let mut out: Vec<RouteItem> = Vec::new();
    let mut i: usize = 0;
    while i < v.len()
        invariant
            0 <= i <= v@.len(),
            out@.len() == i,
            forall|j: int| 0 <= j < i ==> (#[trigger] out@[j])@ == v@[j]@,
        decreases v@.len() - i,
    {
        out.push(v[i].clone());
        i = i + 1;
    }
    assert(items_view(out) =~= items_view(*v));
    out
}

/// Model of a [`FindRouteReq`].
pub struct FindRouteView {
    pub src: Seq<u8>,
    pub create_time: u64,
    pub dest: Seq<u8>,
    pub alpha: u8,
    pub pathes: Option<Seq<PathView>>,
    pub ttl: u8,
    pub sign: Seq<u8>,
}

impl View for FindRouteReq {
    type V = FindRouteView;

    open spec fn view(&self) -> FindRouteView {
        FindRouteView {
            src: self.src@,
            create_time: self.create_time,
            dest: self.dest@,
            alpha: self.alpha,
            pathes: match self.pathes {
                Some(ps) => Some(paths_view(ps)),
                None => None,
            },
            ttl: self.ttl,
            sign: self.sign@,
        }
    }
}

/// Model of a [`RelayDataReq`].
pub struct RelayView {
    pub route_info: FindRouteView,
    pub hash: Seq<u8>,
    pub tags: Seq<Seq<u8>>,
    pub data: Seq<u8>,
    pub sign_packet: Seq<u8>,
}

/// The models of a list of tags.
pub open spec fn tags_view(tags: Vec<Tag>) -> Seq<Seq<u8>> {
    Seq::new(tags@.len(), |i: int| tags@[i].0@)
}

impl View for RelayDataReq {
    type V = RelayView;

    open spec fn view(&self) -> RelayView {
        RelayView {
            route_info: self.route_info@,
            hash: self.hash@,
            tags: tags_view(self.tags),
            data: self.data@,
            sign_packet: self.sign_packet@,
        }
    }
}

impl Clone for FindRouteReq {
    fn clone(&self) -> (r: Self)
        ensures
            r@ == self@,
    {
        FindRouteReq {
            src: copy_bytes(&self.src),
            create_time: self.create_time,
            dest: copy_bytes(&self.dest),
            alpha: self.alpha,
            pathes: match &self.pathes {
                Some(ps) => Some(clone_paths(ps)),
                None => None,
            },
            ttl: self.ttl,
            sign: copy_bytes(&self.sign),
        }
    }
}

impl Clone for RelayDataReq {
    fn clone(&self) -> (r: Self)
        ensures
            r@ == self@,
    {
        RelayDataReq {
            route_info: self.route_info.clone(),
            hash: copy_bytes(&self.hash),
            tags: clone_tags(&self.tags),
            data: copy_bytes(&self.data),
            sign_packet: copy_bytes(&self.sign_packet),
        }
    }
}

/// Model of a [`Transp2pBehaviour`].
pub struct Transp2pView {
    pub local_id: Seq<u8>,
    pub buckets: BucketTableView,
    pub routes: RouteTableView,
    /// Route requests sent, by peer, with the time they were sent.
    pub route_req_sent: Map<Seq<u8>, u64>,
    /// The peers of `route_req_sent`, from the least to the most recently recorded.
    pub route_req_order: Seq<Seq<u8>>,
    /// Data kept for pulling, by hash.
    pub data_cache: Map<Seq<u8>, Seq<u8>>,
    /// Route requests received, by the destination asked for, with the peers that
    /// asked (each once, in the order they asked).
    pub route_req_recv: Map<Seq<u8>, Seq<Seq<u8>>>,
    /// Data relayed, by destination, as the hashes relayed to it (each once).
    pub data_relay_sent: Map<Seq<u8>, Seq<Seq<u8>>>,
    /// Data asked for and not yet received, by hash: when it was first asked for, and
    /// the peers that can give it.
    pub pending_data_retrieve: Map<Seq<u8>, (u64, Seq<Seq<u8>>)>,
    /// Relay requests waiting for their data, by hash, each with the peer it came from.
    pub pending_hash_for_data: Map<Seq<u8>, Seq<(Seq<u8>, RelayView)>>,
    /// Relay requests waiting for a route, by destination.
    pub pending_data_for_route: Map<Seq<u8>, Seq<RelayView>>,
    /// The tags whose data is reported wherever it goes.
    pub tags: Seq<Seq<u8>>,
}

/// The routed transfer behaviour of a node.
pub struct Transp2pBehaviour {
    local_id: Vec<u8>,
    buckets: BucketTable,
    table: RouteTable,
    route_req_recv: ListCache,
    route_req_sent: SentCache,
    data_cache: DataCache,
    pending_data_retrieve: RetrieveCache,
    data_relay_sent: ListCache,
    pending_hash_for_data: WaitCache,
    pending_data_for_route: QueueCache,
    tags: Vec<Vec<u8>>,
}

/// What sending data to some targets amounts to: one relay request per target, the
/// next hops of each target that its request goes to, and all these next hops (each
/// once, in ascending byte order).
pub struct SendPlan {
    pub requests: Vec<RelayDataReq>,
    pub next_hops: Vec<Vec<u8>>,
    /// For each request, the next hops (each once, in ascending byte order) of the
    /// routes held for its target: the peers that request goes to.
    pub hops: Vec<Vec<Vec<u8>>>,
}

impl View for Transp2pBehaviour {
    type V = Transp2pView;

    closed spec fn view(&self) -> Transp2pView {
        Transp2pView {
            local_id: self.local_id@,
            buckets: self.buckets@,
            routes: self.table@,
            route_req_sent: sent_cache_entries(self.route_req_sent),
            route_req_order: sent_cache_order(self.route_req_sent),
            data_cache: data_cache_entries(self.data_cache).map_values(|d: Vec<u8>| d@),
            route_req_recv: lists_view(list_cache_entries(self.route_req_recv)),
            data_relay_sent: lists_view(list_cache_entries(self.data_relay_sent)),
            pending_data_retrieve: retrievals_view(retrieve_cache_entries(self.pending_data_retrieve)),
            pending_hash_for_data: waits_view(wait_cache_entries(self.pending_hash_for_data)),
            pending_data_for_route: queues_view(queue_cache_entries(self.pending_data_for_route)),
            tags: keys_view(self.tags),
        }
    }
}

/// The models of the lists held by a list cache.
pub open spec fn lists_view(m: Map<Seq<u8>, Vec<Vec<u8>>>) -> Map<Seq<u8>, Seq<Seq<u8>>> {
    m.map_values(|v: Vec<Vec<u8>>| keys_view(v))
}

/// The models of the entries of a retrieval cache.
pub open spec fn retrievals_view(m: Map<Seq<u8>, (u64, Vec<Vec<u8>>)>) -> Map<Seq<u8>, (u64, Seq<Seq<u8>>)> {
    m.map_values(|v: (u64, Vec<Vec<u8>>)| (v.0, keys_view(v.1)))
}

/// The models of the entries of a waiting-request cache.
pub open spec fn waits_view(m: Map<Seq<u8>, Vec<(Vec<u8>, RelayDataReq)>>) -> Map<Seq<u8>, Seq<(Seq<u8>, RelayView)>> {
    m.map_values(|v: Vec<(Vec<u8>, RelayDataReq)>| waiting_view(v))
}

/// The models of the entries of a route-queue cache.
pub open spec fn queues_view(m: Map<Seq<u8>, Vec<RelayDataReq>>) -> Map<Seq<u8>, Seq<RelayView>> {
    m.map_values(|v: Vec<RelayDataReq>| relays_view(v))
}

/// `new` is the lists `m` after `x` is added to the list of `k`: appended when the
/// list does not hold it yet; a new list `[x]` when `k` has none (possibly evicting
/// another key from a full cache of capacity `cap`).
pub open spec fn list_added(
    m: Map<Seq<u8>, Seq<Seq<u8>>>,
    new: Map<Seq<u8>, Seq<Seq<u8>>>,
    cap: nat,
    k: Seq<u8>,
    x: Seq<u8>,
) -> bool {
    if m.contains_key(k) {
        new == m.insert(
            k,
            if m[k].contains(x) {
                m[k]
            } else {
                m[k].push(x)
            },
        )
    } else {
        put_result(m, new, cap, k, seq![x])
    }
}

/// `new` is the queues `m` after `x` is appended to the queue of `k` (a new queue
/// `[x]` when `k` has none, possibly evicting another key).
pub open spec fn queue_added<T>(m: Map<Seq<u8>, Seq<T>>, new: Map<Seq<u8>, Seq<T>>, cap: nat, k: Seq<u8>, x: T) -> bool {
    if m.contains_key(k) {
        new == m.insert(k, m[k].push(x))
    } else {
        put_result(m, new, cap, k, seq![x])
    }
}

/// Each queued request is queued under its destination, a peer id of at least six
/// bytes.
pub open spec fn queues_ok(m: Map<Seq<u8>, Seq<RelayView>>) -> bool {
    forall|k: Seq<u8>|
        #[trigger] m.contains_key(k) ==> k.len() >= 6 && forall|i: int|
            0 <= i < m[k].len() ==> (#[trigger] m[k][i]).route_info.dest == k
}

/// Each waiting request came from, and goes to, peer ids of at least six bytes.
pub open spec fn waits_ok(m: Map<Seq<u8>, Seq<(Seq<u8>, RelayView)>>) -> bool {
    forall|k: Seq<u8>, i: int|
        #[trigger] m.contains_key(k) && 0 <= i < m[k].len() ==> (#[trigger] m[k][i]).0.len() >= 6
            && m[k][i].1.route_info.dest.len() >= 6
}

/// The path of a request relayed on by us: a hop for `from`, the peer it came from,
/// over the path it travelled.
pub open spec fn extended_path(pathes: Option<Seq<PathView>>, from: Seq<u8>) -> Option<Seq<PathView>> {
    Some(seq![with_min_ttl(PathView { next: from, pathes, min_ttl: 0, sign: None })])
}

/// A relay request as we pass it on, having received it from `from`.
pub open spec fn relayed_on(q: RelayView, from: Seq<u8>) -> RelayView {
    RelayView {
        route_info: FindRouteView { pathes: extended_path(q.route_info.pathes, from), ..q.route_info },
        ..q
    }
}

/// The peer an action sends to (empty for a report).
pub open spec fn recipient(a: Transp2pAction) -> Seq<u8> {
    match a {
        Transp2pAction::Send(p, _) => p@,
        Transp2pAction::Report(_) => Seq::empty(),
    }
}

/// `a` sends `to` the route request `req`.
pub open spec fn sends_find_route(a: Transp2pAction, to: Seq<u8>, req: FindRouteView) -> bool {
    &&& a matches Transp2pAction::Send(p, TransppEventOut::FindRouteEvt(r))
    &&& p@ == to
    &&& r@ == req
}

/// `a` sends the relay request `req` to some peer.
pub open spec fn sends_relay(a: Transp2pAction, req: RelayView) -> bool {
    &&& a matches Transp2pAction::Send(p, TransppEventOut::RelayDataEvt(r))
    &&& r@ == req
}

/// `a` asks `to` for the data of `hash`.
pub open spec fn sends_pull(a: Transp2pAction, to: Seq<u8>, hash: Seq<u8>) -> bool {
    &&& a matches Transp2pAction::Send(p, TransppEventOut::PullDataEvt(r))
    &&& p@ == to
    &&& r.hash@ == hash
}

/// `a` reports data that reached us: the route it travelled, its hash and the data.
pub open spec fn reports_data(a: Transp2pAction, info: FindRouteView, hash: Seq<u8>, data: Seq<u8>) -> bool {
    &&& a matches Transp2pAction::Report(CustomEventOut::DataRelay(i, h, d))
    &&& i@ == info
    &&& h@ == hash
    &&& d@ == data
}

/// `acts` send `msg` to distinct next hops of `hops`: to `alpha` of them, or to all
/// of them when there are fewer.
pub open spec fn relayed_to_hops(acts: Seq<Transp2pAction>, hops: HopsView, alpha: int, msg: RelayView) -> bool {
    &&& acts.len() <= alpha
    &&& forall|i: int| 0 <= i < acts.len() ==> sends_relay(#[trigger] acts[i], msg) && hops.contains_key(recipient(acts[i]))
    &&& forall|i: int, j: int|
        0 <= i < acts.len() && 0 <= j < acts.len() && i != j ==> recipient(#[trigger] acts[i]) != recipient(
            #[trigger] acts[j],
        )
    &&& acts.len() < alpha ==> forall|n: Seq<u8>|
        #[trigger] hops.contains_key(n) ==> exists|i: int| 0 <= i < acts.len() && recipient(acts[i]) == n
}

/// The route request we send to find `dest` at `now`.
pub open spec fn route_request(local: Seq<u8>, dest: Seq<u8>, alpha: u8, ttl: u8, now: u64) -> FindRouteView {
    FindRouteView { src: local, create_time: now, dest, alpha, pathes: None, ttl, sign: Seq::empty() }
}

/// `t` and `acts` are `s` after relaying `q`, come from `from`, at time `now`: the
/// hash is recorded as relayed to the destination; with a route to the destination
/// the request (with a hop for `from` added unless it is our own) goes to up to
/// `alpha` of its next hops; without one, a route request goes to the closest peers
/// (each recorded as asked at `now`) and the request waits for the route.
pub open spec fn data_relayed(
    s: Transp2pView,
    t: Transp2pView,
    from: Seq<u8>,
    q: RelayView,
    now: u64,
    acts: Seq<Transp2pAction>,
) -> bool {
    let dest = q.route_info.dest;
    &&& list_added(s.data_relay_sent, t.data_relay_sent, 2 * MAX_ROUTE_PENDING_ITEM as nat, dest, q.hash)
    &&& if s.routes.contains_key(dest) {
        &&& t == Transp2pView { data_relay_sent: t.data_relay_sent, ..s }
        &&& relayed_to_hops(
            acts,
            s.routes[dest],
            q.route_info.alpha as int,
            if from == s.local_id {
                q
            } else {
                relayed_on(q, from)
            },
        )
    } else {
        let peers = closest_peers(s.buckets, dest, q.route_info.alpha as int);
        &&& t == Transp2pView {
            data_relay_sent: t.data_relay_sent,
            route_req_sent: t.route_req_sent,
            route_req_order: t.route_req_order,
            pending_data_for_route: t.pending_data_for_route,
            ..s
        }
        &&& after_puts(s, t, peers, now)
        &&& queue_added(s.pending_data_for_route, t.pending_data_for_route, 2 * MAX_ROUTE_PENDING_ITEM as nat, dest, q)
        &&& acts.len() == peers.len()
        &&& forall|i: int|
            0 <= i < acts.len() ==> sends_find_route(
                #[trigger] acts[i],
                peers[i],
                route_request(s.local_id, dest, q.route_info.alpha, q.route_info.ttl, now),
            )
    }
}

/// `t` and `acts` are `s` after handling, in turn, the requests `reqs` that waited for
/// a route, at `now`: those whose data is kept are relayed as our own, the others are
/// dropped.
pub open spec fn queue_relayed(
    s: Transp2pView,
    t: Transp2pView,
    reqs: Seq<RelayView>,
    now: u64,
    acts: Seq<Transp2pAction>,
) -> bool
    decreases reqs.len(),
{
    if reqs.len() == 0 {
        t == s && acts.len() == 0
    } else {
        exists|mid: Transp2pView, k: int|
            #![trigger relay_if_held(mid, t, reqs.last(), now, acts.skip(k))]
            0 <= k <= acts.len() && queue_relayed(s, mid, reqs.drop_last(), now, acts.take(k)) && relay_if_held(
                mid,
                t,
                reqs.last(),
                now,
                acts.skip(k),
            )
    }
}

/// `t` and `acts` are `s` after relaying `q` as our own, at `now`, when its data is
/// kept; `s` unchanged and no action otherwise.
pub open spec fn relay_if_held(s: Transp2pView, t: Transp2pView, q: RelayView, now: u64, acts: Seq<Transp2pAction>) -> bool {
    if s.data_cache.contains_key(q.hash) {
        data_relayed(s, t, s.local_id, q, now, acts)
    } else {
        t == s && acts.len() == 0
    }
}

/// `t` and `acts` are `s` after the routes to `target` changed, at `now`: when a route
/// to `target` is held, the requests waiting for it are taken out of the queue and
/// handled (see [`queue_relayed`]).
pub open spec fn route_updated(s: Transp2pView, t: Transp2pView, target: Seq<u8>, now: u64, acts: Seq<Transp2pAction>) -> bool {
    if s.routes.contains_key(target) && s.pending_data_for_route.contains_key(target) {
        queue_relayed(
            Transp2pView { pending_data_for_route: s.pending_data_for_route.remove(target), ..s },
            t,
            s.pending_data_for_route[target],
            now,
            acts,
        )
    } else {
        t == s && acts.len() == 0
    }
}

/// The branches a route request carries (none when it carries no path).
pub open spec fn request_branches(q: FindRouteView) -> Seq<PathView> {
    match q.pathes {
        Some(ps) => ps,
        None => Seq::empty(),
    }
}

/// The hop count of a route whose branches are `ps`: 1 for a direct neighbour (no
/// branch), else one more than the smallest branch ttl, `INVALID_TTL` at most.
pub open spec fn branches_ttl(ps: Seq<PathView>) -> u8 {
    if ps.len() == 0 {
        1
    } else if seq_min_ttl(ps) < INVALID_TTL {
        (seq_min_ttl(ps) + 1) as u8
    } else {
        INVALID_TTL
    }
}

/// The timed route item that a route request gives for its source.
pub open spec fn request_route_item(q: FindRouteView) -> RouteItemsWithTimeView {
    RouteItemsWithTimeView {
        create_time: q.create_time,
        item: RouteItemView { min_ttl: branches_ttl(request_branches(q)), pathes: request_branches(q), sign: q.sign },
    }
}

/// Some next hop to `target` is connected.
pub open spec fn can_answer(s: Transp2pView, target: Seq<u8>) -> bool {
    s.routes.contains_key(target) && has_connected_hop(s.routes[target], s.buckets)
}

/// The peers that asked for a route to `target`.
pub open spec fn askers(s: Transp2pView, target: Seq<u8>) -> Seq<Seq<u8>> {
    if s.route_req_recv.contains_key(target) {
        s.route_req_recv[target]
    } else {
        Seq::empty()
    }
}

/// Number of answers sent for `target` in state `s`.
pub open spec fn answer_count(s: Transp2pView, target: Seq<u8>) -> int {
    if can_answer(s, target) {
        askers(s, target).len() as int
    } else {
        0
    }
}

/// `acts` answer, when some next hop to `target` is connected, each peer that asked
/// for `target` with the route items held under the connected next hops (in some
/// order); no action otherwise.
pub open spec fn route_answered(s: Transp2pView, target: Seq<u8>, acts: Seq<Transp2pAction>) -> bool {
    if can_answer(s, target) {
        exists|route: Seq<RouteItemView>|
            #![trigger route.to_set()]
            route.to_set() == connected_items(s.routes[target], s.buckets) && acts.len() == askers(s, target).len()
                && forall|i: int| 0 <= i < acts.len() ==> sends_route_resp(#[trigger] acts[i], askers(s, target)[i], target, route)
    } else {
        acts.len() == 0
    }
}

/// `s2` is `s` after the route request `q` from `from` is recorded: `from` among the
/// peers that asked for its destination, and the route it travelled, added at `now`,
/// as a route to its source through `from`.
pub open spec fn route_learnt(s: Transp2pView, s2: Transp2pView, from: Seq<u8>, q: FindRouteView, now: u64) -> bool {
    &&& list_added(s.route_req_recv, s2.route_req_recv, MAX_ROUTE_PENDING_ITEM as nat, q.dest, from)
    &&& routes_added_at(s.routes, s2.routes, q.src, from, seq![request_route_item(q)], now)
    &&& s2 == Transp2pView { route_req_recv: s2.route_req_recv, routes: s2.routes, ..s }
}

/// `t`, `acts` and `forward` are `s` after a route request `q` from `from`, at `now`.
/// A request from a peer we asked ourselves is ignored. Otherwise the request is
/// recorded (see [`route_learnt`]); the requests waiting for a route to its source are
/// handled (see [`route_updated`]); the peers that asked for its source and those that
/// asked for its destination are answered (see [`route_answered`]); and the request
/// is to be passed on unless it is for us, we asked for its destination ourselves, or
/// we could answer it.
pub open spec fn route_request_handled(
    s: Transp2pView,
    t: Transp2pView,
    from: Seq<u8>,
    q: FindRouteView,
    now: u64,
    acts: Seq<Transp2pAction>,
    forward: bool,
) -> bool {
    if s.route_req_sent.contains_key(from) {
        t == s && acts.len() == 0 && !forward
    } else {
        let ns = answer_count(t, q.src);
        let nd = answer_count(t, q.dest);
        let n1 = acts.len() - ns - nd;
        &&& n1 >= 0
        &&& exists|s2: Transp2pView|
            #![trigger route_learnt(s, s2, from, q, now)]
            route_learnt(s, s2, from, q, now) && route_updated(s2, t, q.src, now, acts.take(n1))
        &&& route_answered(t, q.src, acts.subrange(n1, n1 + ns))
        &&& route_answered(t, q.dest, acts.skip(n1 + ns))
        &&& forward == (q.dest != t.local_id && !t.route_req_sent.contains_key(q.dest) && !can_answer(t, q.dest))
    }
}

/// `n` is the table `o` after adding, in turn, each of `items` as a route to `dest`
/// through `next` created at `now`, each added at `now` (see [`routes_added_at`]).
pub open spec fn items_learnt(
    o: RouteTableView,
    n: RouteTableView,
    dest: Seq<u8>,
    next: Seq<u8>,
    items: Seq<RouteItemView>,
    now: u64,
) -> bool
    decreases items.len(),
{
    if items.len() == 0 {
        n == o
    } else {
        exists|mid: RouteTableView|
            #![trigger routes_added_at(mid, n, dest, next, seq![RouteItemsWithTimeView { create_time: now, item: items.last() }], now)]
            items_learnt(o, mid, dest, next, items.drop_last(), now) && routes_added_at(
                mid,
                n,
                dest,
                next,
                seq![RouteItemsWithTimeView { create_time: now, item: items.last() }],
                now,
            )
    }
}

/// `t` and `acts` are `s` after an answer from `from` that `items` lead to `dest`, at
/// `now`: each item is recorded as a route to `dest` through `from` created at `now`
/// (see [`items_learnt`]); the requests waiting for a route to `dest` are handled (see
/// [`route_updated`]); and the peers that asked for `dest` are answered (see
/// [`route_answered`]).
pub open spec fn route_response_handled(
    s: Transp2pView,
    t: Transp2pView,
    from: Seq<u8>,
    dest: Seq<u8>,
    items: Seq<RouteItemView>,
    now: u64,
    acts: Seq<Transp2pAction>,
) -> bool {
    let n1 = acts.len() - answer_count(t, dest);
    &&& n1 >= 0
    &&& exists|r2: RouteTableView|
        #![trigger route_updated(Transp2pView { routes: r2, ..s }, t, dest, now, acts.take(n1))]
        items_learnt(s.routes, r2, dest, from, items, now) && route_updated(
            Transp2pView { routes: r2, ..s },
            t,
            dest,
            now,
            acts.take(n1),
        )
    &&& route_answered(t, dest, acts.skip(n1))
}

/// The data of `q` as we have it: carried in the request, else kept by hash.
pub open spec fn data_of(s: Transp2pView, q: RelayView) -> Seq<u8> {
    if q.data.len() > 0 {
        q.data
    } else {
        s.data_cache[q.hash]
    }
}

/// Data of `q` is to be reported here: it is for us, or it carries a watched tag.
pub open spec fn to_report(s: Transp2pView, q: RelayView) -> bool {
    q.route_info.dest == s.local_id || exists|i: int| 0 <= i < q.tags.len() && s.tags.contains(#[trigger] q.tags[i])
}

/// `t` and `acts` are `s` after taking in the data of the relay request `q`, come
/// from `from`, at `now`. Data already relayed to the destination is ignored. Data
/// neither carried nor kept is waited for: the request waits by hash, and `from` is
/// noted as a peer that has the data (asked for it at once when the hash is new).
/// Otherwise the data is relayed on unless it is for us, and reported when it is for
/// us or carries a watched tag.
pub open spec fn data_taken(
    s: Transp2pView,
    t: Transp2pView,
    from: Seq<u8>,
    q: RelayView,
    now: u64,
    acts: Seq<Transp2pAction>,
) -> bool {
    let dest = q.route_info.dest;
    let h = q.hash;
    if s.data_relay_sent.contains_key(dest) && s.data_relay_sent[dest].contains(h) {
        t == s && acts.len() == 0
    } else if q.data.len() == 0 && !s.data_cache.contains_key(h) {
        &&& t == Transp2pView {
            pending_data_retrieve: t.pending_data_retrieve,
            pending_hash_for_data: t.pending_hash_for_data,
            ..s
        }
        &&& queue_added(s.pending_hash_for_data, t.pending_hash_for_data, MAX_ROUTE_PENDING_ITEM as nat, h, (from, q))
        &&& if s.pending_data_retrieve.contains_key(h) {
            &&& t.pending_data_retrieve == s.pending_data_retrieve.insert(
                h,
                (s.pending_data_retrieve[h].0, s.pending_data_retrieve[h].1.push(from)),
            )
            &&& acts.len() == 0
        } else {
            &&& put_result(s.pending_data_retrieve, t.pending_data_retrieve, MAX_DATA_CACHE_COUNT as nat, h, (now, seq![from]))
            &&& acts.len() == 1
            &&& sends_pull(acts[0], from, h)
        }
    } else {
        let nr: int = if to_report(s, q) {
            1
        } else {
            0
        };
        &&& acts.len() >= nr
        &&& if dest == s.local_id {
            t == s && acts.len() == nr
        } else {
            data_relayed(s, t, from, q, now, acts.take(acts.len() - nr))
        }
        &&& to_report(s, q) ==> reports_data(acts.last(), q.route_info, h, data_of(s, q))
    }
}

/// `t` and `acts` are `s` after relay request `q` came from `from`, at `now`: its route
/// request is handled first (see [`route_request_handled`]), then its data (see
/// [`data_taken`]).
pub open spec fn data_relay_handled(
    s: Transp2pView,
    t: Transp2pView,
    from: Seq<u8>,
    q: RelayView,
    now: u64,
    acts: Seq<Transp2pAction>,
) -> bool {
    exists|s1: Transp2pView, k: int, forward: bool|
        #![trigger route_request_handled(s, s1, from, q.route_info, now, acts.take(k), forward)]
        0 <= k <= acts.len() && route_request_handled(s, s1, from, q.route_info, now, acts.take(k), forward)
            && data_taken(s1, t, from, q, now, acts.skip(k))
}

/// `t` and `acts` are `s` after the data `data` of `hash` reached the waiting request
/// `w` (the peer it came from, and the request), at `now`: reported when it is for
/// us, relayed on otherwise (see [`data_relayed`]).
pub open spec fn waiter_served(
    s: Transp2pView,
    t: Transp2pView,
    w: (Seq<u8>, RelayView),
    hash: Seq<u8>,
    data: Seq<u8>,
    now: u64,
    acts: Seq<Transp2pAction>,
) -> bool {
    if w.1.route_info.dest == s.local_id {
        t == s && acts.len() == 1 && reports_data(acts[0], w.1.route_info, hash, data)
    } else {
        data_relayed(s, t, w.0, w.1, now, acts)
    }
}

/// `t` and `acts` are `s` after serving, in turn, the waiting requests `ws` with the
/// data `data` of `hash`, at `now` (see [`waiter_served`]).
pub open spec fn waiters_served(
    s: Transp2pView,
    t: Transp2pView,
    ws: Seq<(Seq<u8>, RelayView)>,
    hash: Seq<u8>,
    data: Seq<u8>,
    now: u64,
    acts: Seq<Transp2pAction>,
) -> bool
    decreases ws.len(),
{
    if ws.len() == 0 {
        t == s && acts.len() == 0
    } else {
        exists|mid: Transp2pView, k: int|
            #![trigger waiter_served(mid, t, ws.last(), hash, data, now, acts.skip(k))]
            0 <= k <= acts.len() && waiters_served(s, mid, ws.drop_last(), hash, data, now, acts.take(k))
                && waiter_served(mid, t, ws.last(), hash, data, now, acts.skip(k))
    }
}

/// `t` and `acts` are `s` after the data `data` of `hash` arrived for a pull, at
/// `now`. Data whose hash does not match is ignored. Otherwise it is kept, and the
/// requests that waited for it are taken out and served (see [`waiters_served`]).
pub open spec fn pulled_data_handled(
    s: Transp2pView,
    t: Transp2pView,
    hash: Seq<u8>,
    data: Seq<u8>,
    now: u64,
    acts: Seq<Transp2pAction>,
) -> bool {
    if blake2_256_hash(data) != hash {
        t == s && acts.len() == 0
    } else {
        let s1 = Transp2pView { data_cache: t.data_cache, ..s };
        &&& put_result(s.data_cache, t.data_cache, MAX_DATA_CACHE_COUNT as nat, hash, data)
        &&& if s.pending_hash_for_data.contains_key(hash) {
            waiters_served(
                Transp2pView { pending_hash_for_data: s.pending_hash_for_data.remove(hash), ..s1 },
                t,
                s.pending_hash_for_data[hash],
                hash,
                data,
                now,
                acts,
            )
        } else {
            t == s1 && acts.len() == 0
        }
    }
}

/// A retrieval asked for at `time` is overdue at `now`.
pub open spec fn overdue(time: u64, now: u64) -> bool {
    now > time && now - time > MAX_DATA_RETRIEVE
}

/// A retrieval entry after a tick at `now`, the data being kept (`kept`) or not: an
/// overdue entry loses its last peer, and is then dropped when no peer is left, or
/// else restarted at `now` unless the data is kept. Other entries stay.
pub open spec fn retrieval_ticked(e: (u64, Seq<Seq<u8>>), now: u64, kept: bool) -> Option<(u64, Seq<Seq<u8>>)> {
    if !overdue(e.0, now) {
        Some(e)
    } else {
        let ps = if e.1.len() > 0 {
            e.1.drop_last()
        } else {
            e.1
        };
        if ps.len() == 0 {
            None
        } else if kept {
            Some((e.0, ps))
        } else {
            Some((now, ps))
        }
    }
}

/// The retrievals `m` after a tick at `now` of the entries whose hashes are in `done`
/// (see [`retrieval_ticked`]), `kept` being the data held.
pub open spec fn retrievals_ticked(
    m: Map<Seq<u8>, (u64, Seq<Seq<u8>>)>,
    done: Set<Seq<u8>>,
    now: u64,
    kept: Map<Seq<u8>, Seq<u8>>,
) -> Map<Seq<u8>, (u64, Seq<Seq<u8>>)> {
    Map::new(
        |k: Seq<u8>| m.contains_key(k) && (done.contains(k) ==> retrieval_ticked(m[k], now, kept.contains_key(k)) is Some),
        |k: Seq<u8>|
            if done.contains(k) {
                retrieval_ticked(m[k], now, kept.contains_key(k))->0
            } else {
                m[k]
            },
    )
}

/// The data of `k` is asked for again at a tick at `now`: its retrieval is overdue,
/// keeps a peer after losing its last one, and the data is not held.
pub open spec fn asked_again(m: Map<Seq<u8>, (u64, Seq<Seq<u8>>)>, now: u64, kept: Map<Seq<u8>, Seq<u8>>, k: Seq<u8>) -> bool {
    &&& m.contains_key(k)
    &&& !kept.contains_key(k)
    &&& overdue(m[k].0, now)
    &&& m[k].1.len() >= 2
}

/// The hash an action asks for (empty for other actions).
pub open spec fn pulled_hash(a: Transp2pAction) -> Seq<u8> {
    match a {
        Transp2pAction::Send(_, TransppEventOut::PullDataEvt(r)) => r.hash@,
        _ => Seq::empty(),
    }
}

/// `acts` ask again, once each, for the data of the hashes in `done` that a tick at
/// `now` asks for again, each of its first peer.
pub open spec fn retrievals_asked(
    acts: Seq<Transp2pAction>,
    m: Map<Seq<u8>, (u64, Seq<Seq<u8>>)>,
    done: Set<Seq<u8>>,
    now: u64,
    kept: Map<Seq<u8>, Seq<u8>>,
) -> bool {
    &&& forall|i: int|
        0 <= i < acts.len() ==> done.contains(pulled_hash(#[trigger] acts[i])) && asked_again(m, now, kept, pulled_hash(acts[i]))
            && sends_pull(acts[i], m[pulled_hash(acts[i])].1[0], pulled_hash(acts[i]))
    &&& forall|i: int, j: int|
        0 <= i < acts.len() && 0 <= j < acts.len() && i != j ==> pulled_hash(#[trigger] acts[i]) != pulled_hash(
            #[trigger] acts[j],
        )
    &&& forall|k: Seq<u8>|
        done.contains(k) && #[trigger] asked_again(m, now, kept, k) ==> exists|i: int|
            0 <= i < acts.len() && pulled_hash(acts[i]) == k
}

/// `a` sends `to` the data `data` of `hash`.
pub open spec fn sends_data(a: Transp2pAction, to: Seq<u8>, hash: Seq<u8>, data: Seq<u8>) -> bool {
    &&& a matches Transp2pAction::Send(p, TransppEventOut::PullDataRespEvt(r))
    &&& p@ == to
    &&& r.hash@ == hash
    &&& r.data@ == data
}

/// The peer ids a message names have the length that the distance buckets need.
pub open spec fn message_ids_ok(m: TransppEventOut) -> bool {
    match m {
        TransppEventOut::RelayDataEvt(r) => r.route_info.dest@.len() >= 6,
        _ => true,
    }
}

/// `t` and `acts` are `s` after the message `m` came from `who`, at `now`: each kind
/// of message goes to its handler; a request for data is answered with the data when
/// it is kept.
pub open spec fn message_handled(
    s: Transp2pView,
    t: Transp2pView,
    who: Seq<u8>,
    m: TransppEventOut,
    now: u64,
    acts: Seq<Transp2pAction>,
) -> bool {
    match m {
        TransppEventOut::FindRouteEvt(q) => exists|forward: bool|
            #[trigger] route_request_handled(s, t, who, q@, now, acts, forward),
        TransppEventOut::FindRouteRespEvt(resp) => route_response_handled(s, t, who, resp.dest@, items_view(resp.route), now, acts),
        TransppEventOut::RelayDataEvt(r) => data_relay_handled(s, t, who, r@, now, acts),
        TransppEventOut::PullDataEvt(p) => {
            &&& t == s
            &&& if s.data_cache.contains_key(p.hash@) {
                acts.len() == 1 && sends_data(acts[0], who, p.hash@, s.data_cache[p.hash@])
            } else {
                acts.len() == 0
            }
        },
        TransppEventOut::PullDataRespEvt(p) => pulled_data_handled(s, t, p.hash@, p.data@, now, acts),
        TransppEventOut::NoEvent => t == s && acts.len() == 0,
    }
}

/// [`message_handled`] at some time.
pub open spec fn message_handled_now(
    s: Transp2pView,
    t: Transp2pView,
    who: Seq<u8>,
    m: TransppEventOut,
    acts: Seq<Transp2pAction>,
) -> bool {
    exists|now: u64| #[trigger] message_handled(s, t, who, m, now, acts)
}

/// The timed route item that `q` gives for its source.
fn request_item(q: &FindRouteReq) -> (r: RouteItemsWithTime)
    ensures
        r@ == request_route_item(q@),
{
    let pathes = match &q.pathes {
        Some(ps) => clone_paths(ps),
        None => Vec::new(),
    };
    assert(paths_view(pathes) == request_branches(q@)) by {
        if q.pathes is None {
            assert(paths_view(pathes) =~= Seq::<PathView>::empty());
        }
    }
    let min_ttl = if pathes.len() == 0 {
        1
    } else {
        let m = min_ttl_of(&pathes);
        if m < INVALID_TTL {
            m + 1
        } else {
            INVALID_TTL
        }
    };
    RouteItemsWithTime { create_time: q.create_time, item: RouteItem { min_ttl, pathes, sign: copy_bytes(&q.sign) } }
}

/// The path `pathes` with a hop for `from` put over it.
fn extend_path(pathes: &Option<Vec<RoutePathItem>>, from: &Vec<u8>) -> (r: Option<Vec<RoutePathItem>>)
    ensures
        (match r {
            Some(ps) => Some(paths_view(ps)),
            None => None,
        }) == extended_path(
            match *pathes {
                Some(ps) => Some(paths_view(ps)),
                None => None,
            },
            from@,
        ),
{
    let inner = match pathes {
        Some(ps) => Some(clone_paths(ps)),
        None => None,
    };
    let mut hop = RoutePathItem { next: copy_bytes(from), pathes: inner, min_ttl: 0, sign: None };
    proof {
        crate::route_tab::lemma_path_view_branches(hop);
        assert(hop@ == PathView {
            next: from@,
            pathes: match *pathes {
                Some(ps) => Some(paths_view(ps)),
                None => None,
            },
            min_ttl: 0,
            sign: None,
        });
    }
    hop.update_min_ttl();
    let ghost hv = hop@;
    let mut v: Vec<RoutePathItem> = Vec::new();
    v.push(hop);
    assert(paths_view(v) =~= seq![hv]);
    Some(v)
}

/// Adds `x` to the list of `k`, once.
fn add_to_list(c: &mut ListCache, k: &Vec<u8>, x: &Vec<u8>)
    requires
        bounded(list_cache_entries(*old(c)), list_cache_cap(*old(c))),
        list_cache_cap(*old(c)) > 0,
    ensures
        list_cache_cap(*final(c)) == list_cache_cap(*old(c)),
        bounded(list_cache_entries(*final(c)), list_cache_cap(*final(c))),
        list_added(
            lists_view(list_cache_entries(*old(c))),
            lists_view(list_cache_entries(*final(c))),
            list_cache_cap(*old(c)),
            k@,
            x@,
        ),
{
    let ghost m0 = list_cache_entries(*c);
    match list_cache_pop(c, k) {
        Some(mut list) => {
            let ghost l0 = list;
            if !contains_bytes(&list, x) {
                list.push(copy_bytes(x));
                assert(keys_view(list) =~= keys_view(l0).push(x@));
            }
            list_cache_put(c, copy_bytes(k), list);
            proof {
                assert(m0.remove(k@).len() < list_cache_cap(*c)) by {
                    assert(m0.remove(k@).dom() =~= m0.dom().remove(k@));
                }
                assert(lists_view(list_cache_entries(*c)) =~= lists_view(m0).insert(k@, keys_view(list)));
            }
        },
        None => {
            assert(list_cache_entries(*c) =~= m0);
            let mut list: Vec<Vec<u8>> = Vec::new();
            list.push(copy_bytes(x));
            let ghost lv = list;
            list_cache_put(c, copy_bytes(k), list);
            proof {
                assert(keys_view(lv) =~= seq![x@]);
                crate::lru_cache::lemma_put_result_map_values(
                    m0,
                    list_cache_entries(*c),
                    list_cache_cap(*c),
                    k@,
                    lv,
                    |v: Vec<Vec<u8>>| keys_view(v),
                );
            }
        },
    }
}

/// Appends `x` to the queue of `k`.
fn add_to_queue(c: &mut QueueCache, k: &Vec<u8>, x: RelayDataReq)
    requires
        bounded(queue_cache_entries(*old(c)), queue_cache_cap(*old(c))),
        queue_cache_cap(*old(c)) > 0,
    ensures
        queue_cache_cap(*final(c)) == queue_cache_cap(*old(c)),
        bounded(queue_cache_entries(*final(c)), queue_cache_cap(*final(c))),
        queue_added(
            queues_view(queue_cache_entries(*old(c))),
            queues_view(queue_cache_entries(*final(c))),
            queue_cache_cap(*old(c)),
            k@,
            x@,
        ),
{
    let ghost m0 = queue_cache_entries(*c);
    let ghost xv = x@;
    match queue_cache_pop(c, k) {
        Some(mut list) => {
            let ghost l0 = list;
            list.push(x);
            assert(relays_view(list) =~= relays_view(l0).push(xv));
            queue_cache_put(c, copy_bytes(k), list);
            proof {
                assert(m0.remove(k@).len() < queue_cache_cap(*c)) by {
                    assert(m0.remove(k@).dom() =~= m0.dom().remove(k@));
                }
                assert(queues_view(queue_cache_entries(*c)) =~= queues_view(m0).insert(k@, relays_view(list)));
            }
        },
        None => {
            assert(queue_cache_entries(*c) =~= m0);
            let mut list: Vec<RelayDataReq> = Vec::new();
            list.push(x);
            let ghost lv = list;
            queue_cache_put(c, copy_bytes(k), list);
            proof {
                assert(relays_view(lv) =~= seq![xv]);
                crate::lru_cache::lemma_put_result_map_values(
                    m0,
                    queue_cache_entries(*c),
                    queue_cache_cap(*c),
                    k@,
                    lv,
                    |v: Vec<RelayDataReq>| relays_view(v),
                );
            }
        },
    }
}

/// Appends the request `x`, come from `from`, to the requests waiting for `k`.
fn add_to_waiting(c: &mut WaitCache, k: &Vec<u8>, from: &Vec<u8>, x: RelayDataReq)
    requires
        bounded(wait_cache_entries(*old(c)), wait_cache_cap(*old(c))),
        wait_cache_cap(*old(c)) > 0,
    ensures
        wait_cache_cap(*final(c)) == wait_cache_cap(*old(c)),
        bounded(wait_cache_entries(*final(c)), wait_cache_cap(*final(c))),
        queue_added(
            waits_view(wait_cache_entries(*old(c))),
            waits_view(wait_cache_entries(*final(c))),
            wait_cache_cap(*old(c)),
            k@,
            (from@, x@),
        ),
{
    let ghost m0 = wait_cache_entries(*c);
    let ghost xv = (from@, x@);
    match wait_cache_pop(c, k) {
        Some(mut list) => {
            let ghost l0 = list;
            list.push((copy_bytes(from), x));
            assert(waiting_view(list) =~= waiting_view(l0).push(xv));
            wait_cache_put(c, copy_bytes(k), list);
            proof {
                assert(m0.remove(k@).len() < wait_cache_cap(*c)) by {
                    assert(m0.remove(k@).dom() =~= m0.dom().remove(k@));
                }
                assert(waits_view(wait_cache_entries(*c)) =~= waits_view(m0).insert(k@, waiting_view(list)));
            }
        },
        None => {
            assert(wait_cache_entries(*c) =~= m0);
            let mut list: Vec<(Vec<u8>, RelayDataReq)> = Vec::new();
            list.push((copy_bytes(from), x));
            let ghost lv = list;
            wait_cache_put(c, copy_bytes(k), list);
            proof {
                assert(waiting_view(lv) =~= seq![xv]);
                crate::lru_cache::lemma_put_result_map_values(
                    m0,
                    wait_cache_entries(*c),
                    wait_cache_cap(*c),
                    k@,
                    lv,
                    |v: Vec<(Vec<u8>, RelayDataReq)>| waiting_view(v),
                );
            }
        },
    }
}

/// The models of relay requests, each with the peer it came from.
pub open spec fn waiting_view(v: Vec<(Vec<u8>, RelayDataReq)>) -> Seq<(Seq<u8>, RelayView)> {
    Seq::new(v@.len(), |i: int| (v@[i].0@, v@[i].1@))
}

/// The models of relay requests.
pub open spec fn relays_view(v: Vec<RelayDataReq>) -> Seq<RelayView> {
    Seq::new(v@.len(), |i: int| v@[i]@)
}

/// `alpha` when it lies in `1..=DEFAULT_ALPHA`, else `DEFAULT_ALPHA`.
pub open spec fn effective_alpha(alpha: usize) -> usize {
    if alpha == 0 || alpha > DEFAULT_ALPHA {
        DEFAULT_ALPHA
    } else {
        alpha
    }
}

/// `ttl` when it lies in `1..=DEFAULT_MAX_TTL`, else `DEFAULT_MAX_TTL`.
pub open spec fn effective_ttl(ttl: usize) -> usize {
    if ttl == 0 || ttl > DEFAULT_MAX_TTL {
        DEFAULT_MAX_TTL
    } else {
        ttl
    }
}

/// The next hops of the routes held for the targets.
pub open spec fn next_hop_set(routes: RouteTableView, targets: Seq<Seq<u8>>) -> Set<Seq<u8>>
    decreases targets.len(),
{
    if targets.len() == 0 {
        Set::empty()
    } else {
        let rest = next_hop_set(routes, targets.drop_last());
        if routes.contains_key(targets.last()) {
            rest.union(routes[targets.last()].dom())
        } else {
            rest
        }
    }
}

/// The next hops of the routes held for `target` (none when no route is held).
pub open spec fn target_hops(routes: RouteTableView, target: Seq<u8>) -> Set<Seq<u8>> {
    if routes.contains_key(target) {
        routes[target].dom()
    } else {
        Set::empty()
    }
}

/// The requests held after each of `ks`, in order, is recorded as asked at `v` in the
/// requests `m` with recency order `order`, in a cache of capacity `cap`.
pub open spec fn stored_all(m: Map<Seq<u8>, u64>, order: Seq<Seq<u8>>, cap: nat, ks: Seq<Seq<u8>>, v: u64) -> Map<
    Seq<u8>,
    u64,
>
    decreases ks.len(),
{
    if ks.len() == 0 {
        m
    } else {
        lru_stored(
            stored_all(m, order, cap, ks.drop_last(), v),
            lru_uses(order, ks.drop_last(), cap),
            cap,
            ks.last(),
            v,
        )
    }
}

/// The route requests of `t` are those of `s` after each of `ks`, in order, is
/// recorded as asked at `v`: a peer recorded into a full record takes the place of
/// the least recently recorded one.
pub open spec fn after_puts(s: Transp2pView, t: Transp2pView, ks: Seq<Seq<u8>>, v: u64) -> bool {
    &&& t.route_req_sent == stored_all(s.route_req_sent, s.route_req_order, MAX_ROUTE_PENDING_ITEM as nat, ks, v)
    &&& t.route_req_order == lru_uses(s.route_req_order, ks, MAX_ROUTE_PENDING_ITEM as nat)
}

impl Transp2pBehaviour {
    /// The record of route requests lists each peer asked once, in recency order, and
    /// holds at most `MAX_ROUTE_PENDING_ITEM` of them.
    pub proof fn lemma_route_record(&self)
        requires
            self.wf(),
        ensures
            self@.route_req_order.no_duplicates(),
            self@.route_req_order.to_set() == self@.route_req_sent.dom(),
            self@.route_req_order.len() == self@.route_req_sent.len(),
            self@.route_req_sent.len() <= MAX_ROUTE_PENDING_ITEM,
    {
    }
}

/// Recording requests to distinct peers, no more of them than the record holds, keeps
/// every one of them, as asked at that time; they are then the most recently recorded
/// peers, in the order they were recorded.
pub proof fn lemma_asked_peers_recorded(s: Transp2pView, t: Transp2pView, ks: Seq<Seq<u8>>, v: u64)
    requires
        after_puts(s, t, ks, v),
        s.route_req_order.no_duplicates(),
        s.route_req_order.len() <= MAX_ROUTE_PENDING_ITEM,
        ks.no_duplicates(),
        ks.len() <= MAX_ROUTE_PENDING_ITEM,
    ensures
        forall|j: int|
            0 <= j < ks.len() ==> #[trigger] t.route_req_sent.contains_key(ks[j]) && t.route_req_sent[ks[j]] == v,
        t.route_req_order.len() >= ks.len(),
        t.route_req_order.subrange(t.route_req_order.len() - ks.len(), t.route_req_order.len() as int) == ks,
{
    lemma_puts_record_all(s.route_req_sent, s.route_req_order, ks, v);
    let o = t.route_req_order;
    let cap = MAX_ROUTE_PENDING_ITEM as nat;
    assert(o == lru_uses(s.route_req_order, ks, cap));
    assert forall|j: int| 0 <= j < ks.len() implies o.subrange(o.len() - ks.len(), o.len() as int)[j] == ks[j] by {
        assert(o[o.len() - ks.len() + j] == ks[j]);
    }
    assert(o.subrange(o.len() - ks.len(), o.len() as int) =~= ks);
}

#[verifier::spinoff_prover]
proof fn lemma_puts_record_all(m: Map<Seq<u8>, u64>, order: Seq<Seq<u8>>, ks: Seq<Seq<u8>>, v: u64)
    requires
        order.no_duplicates(),
        order.len() <= MAX_ROUTE_PENDING_ITEM,
        ks.no_duplicates(),
        ks.len() <= MAX_ROUTE_PENDING_ITEM,
    ensures
        ({
            let cap = MAX_ROUTE_PENDING_ITEM as nat;
            let o = lru_uses(order, ks, cap);
            let e = stored_all(m, order, cap, ks, v);
            &&& o.no_duplicates()
            &&& o.len() <= cap
            &&& o.len() >= ks.len()
            &&& forall|j: int| 0 <= j < ks.len() ==> #[trigger] o[o.len() - ks.len() + j] == ks[j]
            &&& forall|j: int| 0 <= j < ks.len() ==> #[trigger] e.contains_key(ks[j]) && e[ks[j]] == v
        }),
    decreases ks.len(),
{
    let cap = MAX_ROUTE_PENDING_ITEM as nat;
    if ks.len() > 0 {
        let p = ks.drop_last();
        let k = ks.last();
        assert(p.no_duplicates()) by {
            assert forall|a: int, b: int| 0 <= a < p.len() && 0 <= b < p.len() && a != b implies p[a] != p[b] by {
                assert(p[a] == ks[a] && p[b] == ks[b]);
            }
        }
        lemma_puts_record_all(m, order, p, v);
        let o = lru_uses(order, p, cap);
        let e = stored_all(m, order, cap, p, v);
        let i = p.len() as int;
        assert forall|j: int| o.len() - i <= j < o.len() implies o[j] != k by {
            let jj = j - (o.len() - i);
            assert(o[o.len() - i + jj] == p[jj]);
            assert(p[jj] == ks[jj]);
            assert(ks[ks.len() - 1] == k);
        }
        lemma_lru_used_suffix(o, k, cap, i);
        let n = lru_uses(order, ks, cap);
        assert(n == lru_used(o, k, cap));
        assert forall|j: int| 0 <= j < ks.len() implies #[trigger] n[n.len() - ks.len() + j] == ks[j] by {
            if j < i {
                assert(n[n.len() - 1 - i + j] == o[o.len() - i + j]);
                assert(o[o.len() - i + j] == p[j]);
            } else {
                assert(n[n.len() - 1] == k);
            }
        }
        let e2 = stored_all(m, order, cap, ks, v);
        assert(e2 == lru_stored(e, o, cap, k, v));
        if !(e.contains_key(k) || o.len() < cap) {
            assert forall|j: int| 0 <= j < i implies o[0] != #[trigger] p[j] by {
                assert(o[o.len() - i + j] == p[j]);
            }
        }
        assert forall|j: int| 0 <= j < ks.len() implies #[trigger] e2.contains_key(ks[j]) && e2[ks[j]] == v by {
            if j < i {
                assert(ks[j] == p[j]);
                assert(e.contains_key(p[j]));
            }
        }
    }
}

/// A request sent at `time` has expired at `now`.
pub open spec fn expired(time: u64, now: u64) -> bool {
    now > time && now - time > MAX_ROUTE_REQ_TIME
}

/// The requests of `m` that have not expired at `now`.
pub open spec fn unexpired(m: Map<Seq<u8>, u64>, now: u64) -> Map<Seq<u8>, u64> {
    m.restrict(m.dom().filter(|k: Seq<u8>| !expired(m[k], now)))
}

/// The recency order `order` of the requests `m` without those expired at `now`.
pub open spec fn unexpired_order(order: Seq<Seq<u8>>, m: Map<Seq<u8>, u64>, now: u64) -> Seq<Seq<u8>> {
    without_keys(order, m.dom().filter(|k: Seq<u8>| expired(m[k], now)))
}

/// The relay request of `data` (with hash `hash`) for `dest`.
pub open spec fn relay_request_ok(
    r: RelayDataReq,
    local: Seq<u8>,
    now: u64,
    dest: Seq<u8>,
    alpha: usize,
    ttl: usize,
    tags: Seq<Seq<u8>>,
    data: Seq<u8>,
) -> bool {
    &&& r.route_info.src@ == local
    &&& r.route_info.create_time == now
    &&& r.route_info.dest@ == dest
    &&& r.route_info.alpha == effective_alpha(alpha)
    &&& r.route_info.ttl == effective_ttl(ttl)
    &&& r.route_info.pathes is None
    &&& r.route_info.sign@.len() == 0
    &&& r.hash@ == blake2_256_hash(data)
    &&& Seq::new(r.tags@.len(), |i: int| r.tags@[i].0@) == tags
    &&& r.data@ == if data.len() > MAX_DIRECT_PACKET {
        Seq::empty()
    } else {
        data
    }
    &&& r.sign_packet@.len() == 0
}

/// Copies of tags.
fn clone_tags(tags: &Vec<Tag>) -> (r: Vec<Tag>)
    ensures
        tags_view(r) == tags_view(*tags),
{
    let mut out: Vec<Tag> = Vec::new();
    let mut i: usize = 0;
    while i < tags.len()
        invariant
            0 <= i <= tags@.len(),
            out@.len() == i,
            forall|j: int| 0 <= j < i ==> (#[trigger] out@[j]).0@ == tags@[j].0@,
        decreases tags@.len() - i,
    {
        out.push(Tag(copy_bytes(&tags[i].0)));
        i = i + 1;
    }
    assert(tags_view(out) =~= tags_view(*tags));
    out
}

impl Transp2pBehaviour {
    /// The caches keep their capacities and bounds, and the buckets and the route
    /// table their invariants.
    pub closed spec fn wf(self) -> bool {
        &&& self.buckets@.wf()
        &&& self.buckets@.local_key == self.local_id@
        &&& self.table.wf()
        &&& sent_cache_cap(self.route_req_sent) == MAX_ROUTE_PENDING_ITEM
        &&& bounded(sent_cache_entries(self.route_req_sent), sent_cache_cap(self.route_req_sent))
        &&& lru_consistent(sent_cache_entries(self.route_req_sent), sent_cache_order(self.route_req_sent))
        &&& data_cache_cap(self.data_cache) == MAX_DATA_CACHE_COUNT
        &&& bounded(data_cache_entries(self.data_cache), data_cache_cap(self.data_cache))
        &&& list_cache_cap(self.route_req_recv) == MAX_ROUTE_PENDING_ITEM
        &&& bounded(list_cache_entries(self.route_req_recv), list_cache_cap(self.route_req_recv))
        &&& retrieve_cache_cap(self.pending_data_retrieve) == MAX_DATA_CACHE_COUNT
        &&& bounded(retrieve_cache_entries(self.pending_data_retrieve), retrieve_cache_cap(self.pending_data_retrieve))
        &&& list_cache_cap(self.data_relay_sent) == 2 * MAX_ROUTE_PENDING_ITEM
        &&& bounded(list_cache_entries(self.data_relay_sent), list_cache_cap(self.data_relay_sent))
        &&& wait_cache_cap(self.pending_hash_for_data) == MAX_ROUTE_PENDING_ITEM
        &&& bounded(wait_cache_entries(self.pending_hash_for_data), wait_cache_cap(self.pending_hash_for_data))
        &&& queue_cache_cap(self.pending_data_for_route) == 2 * MAX_ROUTE_PENDING_ITEM
        &&& bounded(queue_cache_entries(self.pending_data_for_route), queue_cache_cap(self.pending_data_for_route))
        &&& queues_ok(self@.pending_data_for_route)
        &&& waits_ok(self@.pending_hash_for_data)
    }

    /// A behaviour for the node `local_id` that knows no peer, route or data yet.
    pub fn new(local_id: Vec<u8>) -> (b: Self)
        ensures
            b.wf(),
            b@.local_id == local_id@,
            b@.buckets.local_key == local_id@,
            b@.buckets.buckets == Seq::new(32, |i: int| Seq::<Seq<u8>>::empty()),
            b@.routes.is_empty(),
            b@.route_req_sent.is_empty(),
            b@.route_req_order.len() == 0,
            b@.data_cache.is_empty(),
            b@.route_req_recv.is_empty(),
            b@.data_relay_sent.is_empty(),
            b@.pending_data_retrieve.is_empty(),
            b@.pending_hash_for_data.is_empty(),
            b@.pending_data_for_route.is_empty(),
            b@.tags.len() == 0,
    {
        let key = copy_bytes(&local_id);
        let b = Transp2pBehaviour {
            local_id,
            buckets: BucketTable::new(key),
            table: RouteTable::new(),
            route_req_recv: list_cache_new(MAX_ROUTE_PENDING_ITEM),
            route_req_sent: sent_cache_new(MAX_ROUTE_PENDING_ITEM),
            data_cache: data_cache_new(MAX_DATA_CACHE_COUNT),
            pending_data_retrieve: retrieve_cache_new(MAX_DATA_CACHE_COUNT),
            data_relay_sent: list_cache_new(2 * MAX_ROUTE_PENDING_ITEM),
            pending_hash_for_data: wait_cache_new(MAX_ROUTE_PENDING_ITEM),
            pending_data_for_route: queue_cache_new(2 * MAX_ROUTE_PENDING_ITEM),
            tags: Vec::new(),
        };
        assert(b@.route_req_order.to_set() =~= Set::<Seq<u8>>::empty());
        assert(b@.route_req_sent.dom() =~= Set::<Seq<u8>>::empty());
        assert(b@.data_cache =~= Map::<Seq<u8>, Seq<u8>>::empty());
        assert(b@.route_req_recv =~= Map::<Seq<u8>, Seq<Seq<u8>>>::empty());
        assert(b@.data_relay_sent =~= Map::<Seq<u8>, Seq<Seq<u8>>>::empty());
        assert(b@.pending_data_retrieve =~= Map::<Seq<u8>, (u64, Seq<Seq<u8>>)>::empty());
        assert(b@.pending_hash_for_data =~= Map::<Seq<u8>, Seq<(Seq<u8>, RelayView)>>::empty());
        assert(b@.pending_data_for_route =~= Map::<Seq<u8>, Seq<RelayView>>::empty());
        b
    }

    /// A peer connected: it is recorded in the buckets.
    pub fn inject_connected(&mut self, peer_id: &Vec<u8>)
        requires
            old(self).wf(),
            old(self)@.local_id.len() >= 6,
            peer_id@.len() >= 6,
        ensures
            final(self).wf(),
            final(self)@ == (Transp2pView {
                buckets: BucketTableView {
                    buckets: {
                        let o = old(self)@.buckets;
                        let i = bucket_of(o.local_key, peer_id@);
                        if o.buckets[i].contains(peer_id@) {
                            o.buckets
                        } else {
                            with_peer(o.buckets, i, peer_id@)
                        }
                    },
                    saturation: final(self)@.buckets.saturation,
                    ..old(self)@.buckets
                },
                ..old(self)@
            }),
    {
        self.buckets.PeerConnected(peer_id);
    }

    /// A peer disconnected: it is taken out of the buckets.
    pub fn inject_disconnected(&mut self, peer_id: &Vec<u8>)
        requires
            old(self).wf(),
            old(self)@.local_id.len() >= 6,
            peer_id@.len() >= 6,
        ensures
            final(self).wf(),
            final(self)@ == (Transp2pView {
                buckets: BucketTableView {
                    buckets: {
                        let o = old(self)@.buckets;
                        let i = bucket_of(o.local_key, peer_id@);
                        if o.buckets[i].contains(peer_id@) {
                            without_peer(o.buckets, i, peer_id@)
                        } else {
                            o.buckets
                        }
                    },
                    saturation: final(self)@.buckets.saturation,
                    ..old(self)@.buckets
                },
                ..old(self)@
            }),
    {
        self.buckets.PeerDisconnected(peer_id);
    }

    /// The peers closest to `peer_id`, at most `DEFAULT_ALPHA` of them.
    pub fn get_closet_peers(&mut self, peer_id: Vec<u8>) -> (r: Vec<Vec<u8>>)
        requires
            old(self).wf(),
            old(self)@.local_id.len() >= 6,
            peer_id@.len() >= 6,
        ensures
            final(self)@ == old(self)@,
            final(self).wf(),
            keys_view(r) == closest_peers(old(self)@.buckets, peer_id@, 0),
    {
        self.buckets.get_closet_peers(&peer_id, 0)
    }

    /// Starts a route discovery towards `dest` at time `now` (seconds): the request,
    /// and the closest peers it is sent to, each recorded as asked at `now`.
    pub fn find_route_at(&mut self, dest: Vec<u8>, alpha: u8, ttl: u8, now: u64) -> (r: (FindRouteReq, Vec<Vec<u8>>))
        requires
            old(self).wf(),
            old(self)@.local_id.len() >= 6,
            dest@.len() >= 6,
        ensures
            final(self).wf(),
            r.0.src@ == old(self)@.local_id,
            r.0.create_time == now,
            r.0.dest@ == dest@,
            r.0.alpha == alpha,
            r.0.ttl == ttl,
            r.0.pathes is None,
            r.0.sign@.len() == 0,
            keys_view(r.1) == closest_peers(old(self)@.buckets, dest@, alpha as int),
            after_puts(old(self)@, final(self)@, keys_view(r.1), now),
            forall|j: int|
                0 <= j < r.1@.len() ==> #[trigger] final(self)@.route_req_sent.contains_key(r.1@[j]@)
                    && final(self)@.route_req_sent[r.1@[j]@] == now,
            final(self)@ == (Transp2pView {
                route_req_sent: final(self)@.route_req_sent,
                route_req_order: final(self)@.route_req_order,
                ..old(self)@
            }),
    {
        let find_req = FindRouteReq {
            src: copy_bytes(&self.local_id),
            create_time: now,
            dest: copy_bytes(&dest),
            pathes: None,
            alpha,
            ttl,
            sign: Vec::new(),
        };
        let peers = self.buckets.get_closet_peers(&dest, alpha as usize);
        let ghost ks = keys_view(peers);
        let ghost s0 = self@;
        let mut i: usize = 0;
        assert(ks.take(0) =~= Seq::<Seq<u8>>::empty());
        while i < peers.len()
            invariant
                self.wf(),
                ks == keys_view(peers),
                0 <= i <= ks.len(),
                s0 == old(self)@,
                after_puts(s0, self@, ks.take(i as int), now),
                self@ == (Transp2pView {
                    route_req_sent: self@.route_req_sent,
                    route_req_order: self@.route_req_order,
                    ..old(self)@
                }),
            decreases ks.len() - i,
        {
            let key = copy_bytes(&peers[i]);
            sent_cache_put(&mut self.route_req_sent, key, now);
            proof {
                assert(ks.take(i + 1).drop_last() =~= ks.take(i as int));
                assert(ks.take(i + 1).last() == peers@[i as int]@);
            }
            i = i + 1;
        }
        assert(ks.take(ks.len() as int) =~= ks);
        proof {
            crate::buckets::lemma_closest_peers_distinct(old(self)@.buckets, dest@, alpha as int);
            assert(s0.route_req_sent.dom().finite());
            assert(s0.route_req_order.len() == s0.route_req_sent.len());
            lemma_asked_peers_recorded(s0, self@, ks, now);
            assert forall|j: int| 0 <= j < peers@.len() implies #[trigger] self@.route_req_sent.contains_key(peers@[j]@)
                && self@.route_req_sent[peers@[j]@] == now by {
                assert(ks[j] == peers@[j]@);
            }
        }
        (find_req, peers)
    }

    /// Starts a route discovery towards `dest` now: see [`Self::find_route_at`]. Fails,
    /// changing nothing, when the clock lies before the Unix epoch.
    #[allow(non_snake_case)]
    pub fn findRoute(&mut self, dest: Vec<u8>, alpha: u8, ttl: u8) -> (r: Result<(FindRouteReq, Vec<Vec<u8>>), ClockError>)
        requires
            old(self).wf(),
            old(self)@.local_id.len() >= 6,
            dest@.len() >= 6,
        ensures
            final(self).wf(),
            match r {
                Ok((req, targets)) => {
                    &&& req.src@ == old(self)@.local_id
                    &&& req.dest@ == dest@
                    &&& req.alpha == alpha
                    &&& req.ttl == ttl
                    &&& req.pathes is None
                    &&& keys_view(targets) == closest_peers(old(self)@.buckets, dest@, alpha as int)
                    &&& after_puts(old(self)@, final(self)@, keys_view(targets), req.create_time)
                    &&& forall|j: int|
                        0 <= j < targets@.len() ==> #[trigger] final(self)@.route_req_sent.contains_key(targets@[j]@)
                            && final(self)@.route_req_sent[targets@[j]@] == req.create_time
                    &&& final(self)@ == (Transp2pView {
                        route_req_sent: final(self)@.route_req_sent,
                        route_req_order: final(self)@.route_req_order,
                        ..old(self)@
                    })
                },
                Err(_) => final(self)@ == old(self)@,
            },
    {
        match unix_now_secs() {
            Ok(now) => Ok(self.find_route_at(dest, alpha, ttl, now)),
            Err(e) => Err(e),
        }
    }

    /// Forgets the route requests that have expired at `now` (seconds).
    pub fn expire_route_requests(&mut self, now: u64)
        requires
            old(self).wf(),
        ensures
            final(self).wf(),
            final(self)@ == (Transp2pView {
                route_req_sent: unexpired(old(self)@.route_req_sent, now),
                route_req_order: unexpired_order(old(self)@.route_req_order, old(self)@.route_req_sent, now),
                ..old(self)@
            }),
    {
        let ghost m0 = sent_cache_entries(self.route_req_sent);
        let ids = sent_cache_keys(&self.route_req_sent);
        let ghost ks = keys_view(ids);
        let mut to_delete: Vec<Vec<u8>> = Vec::new();
        let mut i: usize = 0;
        while i < ids.len()
            invariant
                self.wf(),
                self@ == old(self)@,
                m0 == sent_cache_entries(self.route_req_sent),
                ks == keys_view(ids),
                ks.to_set() == m0.dom(),
                0 <= i <= ks.len(),
                forall|k: Seq<u8>|
                    #[trigger] keys_view(to_delete).contains(k) <==> exists|j: int|
                        0 <= j < i && ks[j] == k && expired(m0[k], now),
            decreases ks.len() - i,
        {
            assert(ks.to_set().contains(ks[i as int]));
            assert(ks[i as int] == ids@[i as int]@);
            let time = sent_cache_peek(&self.route_req_sent, &ids[i]);
            let ghost before = keys_view(to_delete);
            match time {
                Some(t) => {
                    if now > t && now - t > MAX_ROUTE_REQ_TIME {
                        to_delete.push(copy_bytes(&ids[i]));
                        assert(keys_view(to_delete) =~= before.push(ks[i as int]));
                    }
                },
                None => {},
            }
            proof {
                assert forall|k: Seq<u8>| #[trigger] keys_view(to_delete).contains(k) <==> exists|j: int|
                    0 <= j < i + 1 && ks[j] == k && expired(m0[k], now) by {
                    if keys_view(to_delete).contains(k) && !before.contains(k) {
                        assert(ks[i as int] == k);
                    }
                    if exists|j: int| 0 <= j < i + 1 && ks[j] == k && expired(m0[k], now) {
                        let j = choose|j: int| 0 <= j < i + 1 && ks[j] == k && expired(m0[k], now);
                        if j == i {
                            assert(keys_view(to_delete)[keys_view(to_delete).len() - 1] == k);
                        } else {
                            assert(before.contains(k));
                            let w = choose|w: int| 0 <= w < before.len() && before[w] == k;
                            assert(keys_view(to_delete)[w] == k);
                        }
                    }
                }
            }
            i = i + 1;
        }
        let ghost dels = keys_view(to_delete);
        let mut d: usize = 0;
        proof {
            lemma_without_no_keys(old(self)@.route_req_order);
            assert(dels.take(0).to_set() =~= Set::<Seq<u8>>::empty());
        }
        while d < to_delete.len()
            invariant
                self.wf(),
                dels == keys_view(to_delete),
                self@ == (Transp2pView {
                    route_req_sent: self@.route_req_sent,
                    route_req_order: self@.route_req_order,
                    ..old(self)@
                }),
                0 <= d <= dels.len(),
                sent_cache_entries(self.route_req_sent) == m0.remove_keys(dels.take(d as int).to_set()),
                self@.route_req_order == without_keys(old(self)@.route_req_order, dels.take(d as int).to_set()),
            decreases dels.len() - d,
        {
            let ghost before = sent_cache_entries(self.route_req_sent);
            sent_cache_pop(&mut self.route_req_sent, &to_delete[d]);
            proof {
                assert(dels[d as int] == to_delete@[d as int]@);
                let a = dels.take(d as int);
                let b = dels.take(d + 1);
                assert(b =~= a.push(dels[d as int]));
                assert forall|x: Seq<u8>| b.to_set().contains(x) <==> a.to_set().insert(dels[d as int]).contains(x) by {
                    if b.contains(x) && x != dels[d as int] {
                        let j = choose|j: int| 0 <= j < b.len() && b[j] == x;
                        assert(a[j] == x);
                    }
                    if a.contains(x) {
                        let j = choose|j: int| 0 <= j < a.len() && a[j] == x;
                        assert(b[j] == x);
                    }
                    if x == dels[d as int] {
                        assert(b[d as int] == x);
                    }
                }
                assert(b.to_set() =~= a.to_set().insert(dels[d as int]));
                lemma_without_keys_insert(old(self)@.route_req_order, a.to_set(), dels[d as int]);
                assert(sent_cache_entries(self.route_req_sent) =~= m0.remove_keys(dels.take(d + 1).to_set()));
            }
            d = d + 1;
        }
        proof {
            assert(dels.take(dels.len() as int) =~= dels);
            assert forall|k: Seq<u8>| dels.to_set().contains(k) <==> (m0.contains_key(k) && expired(m0[k], now)) by {
                if dels.to_set().contains(k) {
                    assert(dels.contains(k));
                    let j = choose|j: int| 0 <= j < ks.len() && ks[j] == k && expired(m0[k], now);
                    assert(ks.to_set().contains(ks[j]));
                }
                if m0.contains_key(k) && expired(m0[k], now) {
                    assert(ks.to_set().contains(k));
                    let j = choose|j: int| 0 <= j < ks.len() && ks[j] == k;
                    assert(dels.contains(k));
                }
            }
            assert(m0.remove_keys(dels.to_set()) =~= unexpired(m0, now));
            assert(dels.to_set() =~= m0.dom().filter(|k: Seq<u8>| expired(m0[k], now)));
        }
    }

    /// Plans sending `data` to `targets` at time `now` (seconds): data longer than
    /// `MAX_DIRECT_PACKET` is kept for pulling and travels by hash only; one relay
    /// request per target, with the spread and hop limit brought into range; and the
    /// next hops of the routes held for the targets, each once.
    pub fn send_peers_at(
        &mut self,
        targets: Vec<Vec<u8>>,
        alpha: usize,
        ttl: usize,
        tags: Vec<Tag>,
        data: Vec<u8>,
        now: u64,
    ) -> (r: SendPlan)
        requires
            old(self).wf(),
        ensures
            final(self).wf(),
            if data@.len() > MAX_DIRECT_PACKET {
                &&& put_result(
                    old(self)@.data_cache,
                    final(self)@.data_cache,
                    MAX_DATA_CACHE_COUNT as nat,
                    blake2_256_hash(data@),
                    data@,
                )
                &&& final(self)@ == (Transp2pView { data_cache: final(self)@.data_cache, ..old(self)@ })
            } else {
                final(self)@ == old(self)@
            },
            r.requests@.len() == targets@.len(),
            forall|i: int|
                0 <= i < targets@.len() ==> relay_request_ok(
                    #[trigger] r.requests@[i],
                    old(self)@.local_id,
                    now,
                    targets@[i]@,
                    alpha,
                    ttl,
                    Seq::new(tags@.len(), |j: int| tags@[j].0@),
                    data@,
                ),
            strictly_sorted(keys_view(r.next_hops)),
            keys_view(r.next_hops).to_set() == next_hop_set(old(self)@.routes, keys_view(targets)),
            r.hops@.len() == targets@.len(),
            forall|i: int|
                0 <= i < targets@.len() ==> strictly_sorted(keys_view(#[trigger] r.hops@[i])) && keys_view(r.hops@[i]).to_set()
                    == target_hops(old(self)@.routes, targets@[i]@),
    {
        let hash = blake2_hash(&data);
        let mut alpha_used = alpha;
        let mut ttl_used = ttl;
        if alpha_used == 0 || alpha_used > DEFAULT_ALPHA {
            alpha_used = DEFAULT_ALPHA;
        }
        if ttl_used == 0 || ttl_used > DEFAULT_MAX_TTL {
            ttl_used = DEFAULT_MAX_TTL;
        }
        let ghost tag_view = Seq::new(tags@.len(), |j: int| tags@[j].0@);
        let inline_data: Vec<u8>;
        if data.len() > MAX_DIRECT_PACKET {
            let ghost ent0 = data_cache_entries(self.data_cache);
            let ghost dv = data;
            inline_data = Vec::new();
            data_cache_put(&mut self.data_cache, copy_bytes(&hash), data);
            proof {
                crate::lru_cache::lemma_put_result_map_values(
                    ent0,
                    data_cache_entries(self.data_cache),
                    MAX_DATA_CACHE_COUNT as nat,
                    hash@,
                    dv,
                    |d: Vec<u8>| d@,
                );
            }
        } else {
            inline_data = data;
        }
        let ghost mid = self@;
        let mut requests: Vec<RelayDataReq> = Vec::new();
        let mut i: usize = 0;
        while i < targets.len()
            invariant
                self@ == mid,
                self.wf(),
                self@.local_id == old(self)@.local_id,
                0 <= i <= targets@.len(),
                requests@.len() == i,
                alpha_used == effective_alpha(alpha),
                ttl_used == effective_ttl(ttl),
                hash@ == blake2_256_hash(data@),
                tag_view == Seq::new(tags@.len(), |j: int| tags@[j].0@),
                inline_data@ == if data@.len() > MAX_DIRECT_PACKET {
                    Seq::<u8>::empty()
                } else {
                    data@
                },
                forall|j: int|
                    0 <= j < i ==> relay_request_ok(
                        #[trigger] requests@[j],
                        old(self)@.local_id,
                        now,
                        targets@[j]@,
                        alpha,
                        ttl,
                        tag_view,
                        data@,
                    ),
            decreases targets@.len() - i,
        {
            let route_info = FindRouteReq {
                src: copy_bytes(&self.local_id),
                create_time: now,
                dest: copy_bytes(&targets[i]),
                alpha: alpha_used as u8,
                ttl: ttl_used as u8,
                pathes: None,
                sign: Vec::new(),
            };
            let req = RelayDataReq {
                route_info,
                hash: copy_bytes(&hash),
                tags: clone_tags(&tags),
                data: copy_bytes(&inline_data),
                sign_packet: Vec::new(),
            };
            requests.push(req);
            i = i + 1;
        }
        let ghost ks = keys_view(targets);
        let mut next_hops: Vec<Vec<u8>> = Vec::new();
        let mut per_target: Vec<Vec<Vec<u8>>> = Vec::new();
        let mut t: usize = 0;
        assert(ks.take(0) =~= Seq::<Seq<u8>>::empty());
        assert(keys_view(next_hops).to_set() =~= Set::<Seq<u8>>::empty());
        while t < targets.len()
            invariant
                self@ == mid,
                self.wf(),
                ks == keys_view(targets),
                0 <= t <= ks.len(),
                strictly_sorted(keys_view(next_hops)),
                keys_view(next_hops).to_set() == next_hop_set(mid.routes, ks.take(t as int)),
                per_target@.len() == t,
                forall|j: int|
                    0 <= j < t ==> strictly_sorted(keys_view(#[trigger] per_target@[j])) && keys_view(per_target@[j]).to_set()
                        == target_hops(mid.routes, ks[j]),
            decreases ks.len() - t,
        {
            proof {
                assert(ks.take(t + 1).drop_last() =~= ks.take(t as int));
                assert(ks.take(t + 1).last() == targets@[t as int]@);
            }
            let mut own: Vec<Vec<u8>> = Vec::new();
            match self.table.get(copy_bytes(&targets[t])) {
                Some(hops) => {
                    let ghost base = keys_view(next_hops).to_set();
                    let ghost nexts = Seq::new(hops@.len(), |j: int| hops@[j].next@);
                    proof {
                        lemma_hops_distinct(hops@);
                        assert(nexts.take(0) =~= Seq::<Seq<u8>>::empty());
                        assert(base.union(nexts.take(0).to_set()) =~= base);
                        assert(keys_view(own).to_set() =~= nexts.take(0).to_set());
                    }
                    let mut h: usize = 0;
                    while h < hops.len()
                        invariant
                            nexts == Seq::new(hops@.len(), |j: int| hops@[j].next@),
                            strictly_sorted(keys_view(next_hops)),
                            strictly_sorted(keys_view(own)),
                            0 <= h <= hops@.len(),
                            keys_view(next_hops).to_set() == base.union(nexts.take(h as int).to_set()),
                            keys_view(own).to_set() == nexts.take(h as int).to_set(),
                        decreases hops@.len() - h,
                    {
                        insert_sorted_unique(&mut next_hops, &hops[h].next);
                        insert_sorted_unique(&mut own, &hops[h].next);
                        proof {
                            assert(nexts.take(h + 1) =~= nexts.take(h as int).push(nexts[h as int]));
                            nexts.take(h as int).lemma_push_to_set_commute(nexts[h as int]);
                            assert(keys_view(next_hops).to_set() =~= base.union(nexts.take(h + 1).to_set()));
                        }
                        h = h + 1;
                    }
                    proof {
                        let hv = hops_view(hops);
                        assert(nexts.take(nexts.len() as int) =~= nexts);
                        assert forall|n: Seq<u8>| #[trigger] hv.dom().contains(n) implies nexts.to_set().contains(n) by {
                            assert(hv.contains_key(n));
                            let j = choose|j: int| 0 <= j < hops@.len() && hops@[j].next@ == n;
                            assert(nexts[j] == n);
                        }
                        assert forall|n: Seq<u8>| #[trigger] nexts.to_set().contains(n) implies hv.dom().contains(n) by {
                            let j = choose|j: int| 0 <= j < nexts.len() && nexts[j] == n;
                            assert(hv.contains_key(hops@[j].next@));
                        }
                        assert(nexts.to_set() =~= hv.dom());
                        assert(keys_view(own).to_set() == target_hops(mid.routes, ks[t as int]));
                    }
                },
                None => {
                    proof {
                        assert(keys_view(own).to_set() =~= Set::<Seq<u8>>::empty());
                        assert(strictly_sorted(keys_view(own)));
                    }
                },
            }
            per_target.push(own);
            t = t + 1;
        }
        assert(ks.take(ks.len() as int) =~= ks);
        SendPlan { requests, next_hops, hops: per_target }
    }

    /// Plans sending `data` to `targets` now: see [`Self::send_peers_at`]. Fails,
    /// changing nothing, when the clock lies before the Unix epoch.
    pub fn send_peers(&mut self, targets: Vec<Vec<u8>>, alpha: usize, ttl: usize, tags: Vec<Tag>, data: Vec<u8>) -> (r:
        Result<SendPlan, ClockError>)
        requires
            old(self).wf(),
        ensures
            final(self).wf(),
            match r {
                Ok(plan) => {
                    &&& plan.requests@.len() == targets@.len()
                    &&& forall|i: int|
                        0 <= i < targets@.len() ==> relay_request_ok(
                            #[trigger] plan.requests@[i],
                            old(self)@.local_id,
                            plan.requests@[0].route_info.create_time,
                            targets@[i]@,
                            alpha,
                            ttl,
                            Seq::new(tags@.len(), |j: int| tags@[j].0@),
                            data@,
                        )
                    &&& strictly_sorted(keys_view(plan.next_hops))
                    &&& keys_view(plan.next_hops).to_set() == next_hop_set(old(self)@.routes, keys_view(targets))
                    &&& plan.hops@.len() == targets@.len()
                    &&& forall|i: int|
                        0 <= i < targets@.len() ==> strictly_sorted(keys_view(#[trigger] plan.hops@[i]))
                            && keys_view(plan.hops@[i]).to_set() == target_hops(old(self)@.routes, targets@[i]@)
                    &&& if data@.len() > MAX_DIRECT_PACKET {
                        &&& put_result(
                            old(self)@.data_cache,
                            final(self)@.data_cache,
                            MAX_DATA_CACHE_COUNT as nat,
                            blake2_256_hash(data@),
                            data@,
                        )
                        &&& final(self)@ == (Transp2pView { data_cache: final(self)@.data_cache, ..old(self)@ })
                    } else {
                        final(self)@ == old(self)@
                    }
                },
                Err(_) => final(self)@ == old(self)@,
            },
    {
        match unix_now_secs() {
            Ok(now) => Ok(self.send_peers_at(targets, alpha, ttl, tags, data, now)),
            Err(e) => Err(e),
        }
    }

    /// Whether a route request to `peer` is remembered as sent.
    pub fn has_sent_route_request(&self, peer: &Vec<u8>) -> (r: bool)
        ensures
            r == self@.route_req_sent.contains_key(peer@),
    {
        sent_cache_peek(&self.route_req_sent, peer).is_some()
    }

    /// Records routes to `target` learnt through the neighbour `next`; see
    /// [`RouteTable::add_route_items`].
    pub fn add_route_items(&mut self, target: Vec<u8>, next: Vec<u8>, items: &Vec<crate::route_tab::RouteItemsWithTime>) -> (r:
        Result<(), ClockError>)
        requires
            old(self).wf(),
        ensures
            final(self).wf(),
            final(self)@ == (Transp2pView { routes: final(self)@.routes, ..old(self)@ }),
            routes_added(old(self)@.routes, final(self)@.routes, target@, next@, times_view(*items), r is Ok),
    {
        self.table.add_route_items(target, next, items)
    }

    /// A peer asks for the data of `hash`: the data, when it is kept.
    #[allow(non_snake_case)]
    pub fn onPullData(&mut self, from: &Vec<u8>, hash: &Vec<u8>) -> (r: Option<PullDataResp>)
        requires
            old(self).wf(),
        ensures
            final(self).wf(),
            final(self)@ == old(self)@,
            match r {
                Some(resp) => old(self)@.data_cache.contains_key(hash@) && resp.hash@ == hash@ && resp.data@
                    == old(self)@.data_cache[hash@],
                None => !old(self)@.data_cache.contains_key(hash@),
            },
    {
        match data_cache_get(&mut self.data_cache, hash) {
            Some(data) => Some(PullDataResp { hash: copy_bytes(hash), data }),
            None => None,
        }
    }

    /// Keeps data that arrived for a pull when its hash matches, ignores it otherwise;
    /// tells whether it was kept.
    fn keep_pulled_data(&mut self, data_resp: &PullDataResp) -> (r: bool)
        requires
            old(self).wf(),
        ensures
            final(self).wf(),
            r == (blake2_256_hash(data_resp.data@) == data_resp.hash@),
            r ==> put_result(
                old(self)@.data_cache,
                final(self)@.data_cache,
                MAX_DATA_CACHE_COUNT as nat,
                data_resp.hash@,
                data_resp.data@,
            ) && final(self)@ == (Transp2pView { data_cache: final(self)@.data_cache, ..old(self)@ }),
            !r ==> final(self)@ == old(self)@,
    {
        let h = blake2_hash(&data_resp.data);
        if !bytes_equal(&h, &data_resp.hash) {
            return false;
        }
        let ghost ent0 = data_cache_entries(self.data_cache);
        let d = copy_bytes(&data_resp.data);
        let ghost dv = d;
        data_cache_put(&mut self.data_cache, copy_bytes(&data_resp.hash), d);
        proof {
            crate::lru_cache::lemma_put_result_map_values(
                ent0,
                data_cache_entries(self.data_cache),
                MAX_DATA_CACHE_COUNT as nat,
                data_resp.hash@,
                dv,
                |d: Vec<u8>| d@,
            );
        }
        true
    }
}


impl Transp2pBehaviour {
    /// The route items held for `target` under its connected next hops; none when no
    /// next hop of `target` is connected.
    pub fn connected_route_items(&self, target: &Vec<u8>) -> (r: Option<Vec<RouteItem>>)
        requires
            self.wf(),
            self@.local_id.len() >= 6,
        ensures
            match r {
                Some(v) => {
                    &&& self@.routes.contains_key(target@)
                    &&& has_connected_hop(self@.routes[target@], self@.buckets)
                    &&& items_view(v).to_set() == connected_items(self@.routes[target@], self@.buckets)
                },
                None => !(self@.routes.contains_key(target@) && has_connected_hop(self@.routes[target@], self@.buckets)),
            },
    {
        let hops = match self.table.get(copy_bytes(target)) {
            Some(h) => h,
            None => return None,
        };
        let ghost hv = hops_view(hops);
        let ghost b = self@.buckets;
        proof {
            lemma_hops_distinct(hops@);
        }
        let mut any = false;
        let mut out: Vec<RouteItem> = Vec::new();
        let mut i: usize = 0;
        while i < hops.len()
            invariant
                self.wf(),
                self@.local_id.len() >= 6,
                b == self@.buckets,
                0 <= i <= hops@.len(),
                any <==> exists|j: int| 0 <= j < i && #[trigger] holds_peer(b, hops@[j].next@),
                forall|x: RouteItemView|
                    #[trigger] items_view(out).contains(x) <==> exists|j: int, t: u64|
                        #![trigger time_map_view(hops@[j].times)[t]]
                        0 <= j < i && holds_peer(b, hops@[j].next@) && time_map_view(hops@[j].times).contains_key(t)
                            && time_map_view(hops@[j].times)[t] == x,
            decreases hops@.len() - i,
        {
            if self.buckets.has_peer(&hops[i].next) {
                any = true;
                let timed = from_map(&hops[i].times);
                let ghost tm = time_map_view(hops@[i as int].times);
                let ghost tv = times_view(timed);
                proof {
                    lemma_times_to_map_distinct(tv);
                    assert(crate::route_tab::times_to_map(tv) == tm);
                }
                let ghost before = items_view(out);
                let mut k: usize = 0;
                while k < timed.len()
                    invariant
                        tv == times_view(timed),
                        0 <= k <= timed@.len(),
                        forall|x: RouteItemView|
                            #[trigger] items_view(out).contains(x) <==> before.contains(x) || exists|q: int|
                                0 <= q < k && tv[q].item == x,
                    decreases timed@.len() - k,
                {
                    let ghost prev = items_view(out);
                    out.push(timed[k].item.clone());
                    proof {
                        assert(items_view(out) =~= prev.push(tv[k as int].item));
                        assert forall|x: RouteItemView| #[trigger] items_view(out).contains(x) <==> before.contains(x)
                            || exists|q: int| 0 <= q < k + 1 && tv[q].item == x by {
                            if items_view(out).contains(x) && !prev.contains(x) {
                                assert(x == tv[k as int].item);
                            }
                            if exists|q: int| 0 <= q < k + 1 && tv[q].item == x {
                                let q = choose|q: int| 0 <= q < k + 1 && tv[q].item == x;
                                if q == k {
                                    assert(items_view(out)[prev.len() as int] == x);
                                } else {
                                    assert(prev.contains(x));
                                    let w = choose|w: int| 0 <= w < prev.len() && prev[w] == x;
                                    assert(items_view(out)[w] == x);
                                }
                            }
                            if before.contains(x) {
                                assert(prev.contains(x));
                                let w = choose|w: int| 0 <= w < prev.len() && prev[w] == x;
                                assert(items_view(out)[w] == x);
                            }
                        }
                    }
                    k = k + 1;
                }
                proof {
                    assert forall|x: RouteItemView| #[trigger] items_view(out).contains(x) <==> exists|j: int, t: u64|
                        #![trigger time_map_view(hops@[j].times)[t]]
                        0 <= j < i + 1 && holds_peer(b, hops@[j].next@) && time_map_view(hops@[j].times).contains_key(t)
                            && time_map_view(hops@[j].times)[t] == x by {
                        if exists|q: int| 0 <= q < timed@.len() && tv[q].item == x {
                            let q = choose|q: int| 0 <= q < timed@.len() && tv[q].item == x;
                            assert(crate::route_tab::times_to_map(tv).contains_key(tv[q].create_time));
                            assert(tm.contains_key(tv[q].create_time) && tm[tv[q].create_time] == tv[q].item);
                            assert(time_map_view(hops@[i as int].times)[tv[q].create_time] == x);
                        }
                        if exists|j: int, t: u64|
                            #![trigger time_map_view(hops@[j].times)[t]]
                            0 <= j < i + 1 && holds_peer(b, hops@[j].next@) && time_map_view(hops@[j].times).contains_key(t)
                                && time_map_view(hops@[j].times)[t] == x {
                            let (j, t) = choose|j: int, t: u64|
                                #![trigger time_map_view(hops@[j].times)[t]]
                                0 <= j < i + 1 && holds_peer(b, hops@[j].next@) && time_map_view(hops@[j].times).contains_key(t)
                                    && time_map_view(hops@[j].times)[t] == x;
                            if j == i {
                                assert(tm.contains_key(t));
                                assert(crate::route_tab::times_to_map(tv).contains_key(t));
                                let q = choose|q: int| 0 <= q < tv.len() && tv[q].create_time == t;
                                assert(tv[q].item == x);
                            } else {
                                assert(time_map_view(hops@[j].times)[t] == x);
                            }
                        }
                    }
                    assert(holds_peer(b, hops@[i as int].next@));
                }
            } else {
                proof {
                    assert forall|x: RouteItemView| #[trigger] items_view(out).contains(x) <==> exists|j: int, t: u64|
                        #![trigger time_map_view(hops@[j].times)[t]]
                        0 <= j < i + 1 && holds_peer(b, hops@[j].next@) && time_map_view(hops@[j].times).contains_key(t)
                            && time_map_view(hops@[j].times)[t] == x by {
                        if exists|j: int, t: u64|
                            #![trigger time_map_view(hops@[j].times)[t]]
                            0 <= j < i + 1 && holds_peer(b, hops@[j].next@) && time_map_view(hops@[j].times).contains_key(t)
                                && time_map_view(hops@[j].times)[t] == x {
                            let (j, t) = choose|j: int, t: u64|
                                #![trigger time_map_view(hops@[j].times)[t]]
                                0 <= j < i + 1 && holds_peer(b, hops@[j].next@) && time_map_view(hops@[j].times).contains_key(t)
                                    && time_map_view(hops@[j].times)[t] == x;
                            assert(j != i);
                            assert(time_map_view(hops@[j].times)[t] == x);
                        }
                    }
                }
            }
            i = i + 1;
        }
        proof {
            let ci = connected_items(hv, b);
            assert forall|x: RouteItemView| items_view(out).to_set().contains(x) <==> ci.contains(x) by {
                if items_view(out).contains(x) {
                    let (j, t) = choose|j: int, t: u64|
                        #![trigger time_map_view(hops@[j].times)[t]]
                        0 <= j < hops@.len() && holds_peer(b, hops@[j].next@) && time_map_view(hops@[j].times).contains_key(t)
                            && time_map_view(hops@[j].times)[t] == x;
                    assert(crate::route_tab::hops_seq_view(hops@).contains_key(hops@[j].next@));
                    assert(hv.contains_key(hops@[j].next@) && hv[hops@[j].next@] == time_map_view(hops@[j].times));
                    assert(hv[hops@[j].next@][t] == x);
                }
                if ci.contains(x) {
                    let (n, t) = choose|n: Seq<u8>, t: u64|
                        #![trigger hv[n][t]]
                        hv.contains_key(n) && holds_peer(b, n) && hv[n].contains_key(t) && hv[n][t] == x;
                    let j = choose|j: int| 0 <= j < hops@.len() && hops@[j].next@ == n;
                    assert(hv[hops@[j].next@] == time_map_view(hops@[j].times));
                    assert(time_map_view(hops@[j].times)[t] == x);
                }
            }
            assert(items_view(out).to_set() =~= ci);
            if any {
                let j = choose|j: int| 0 <= j < hops@.len() && #[trigger] holds_peer(b, hops@[j].next@);
                assert(hv.contains_key(hops@[j].next@));
            } else {
                if has_connected_hop(hv, b) {
                    let n = choose|n: Seq<u8>| #[trigger] hv.contains_key(n) && holds_peer(b, n);
                    let j = choose|j: int| 0 <= j < hops@.len() && hops@[j].next@ == n;
                    assert(holds_peer(b, hops@[j].next@));
                }
            }
        }
        if any {
            Some(out)
        } else {
            None
        }
    }

    /// Passes on a route request come from `from` at time `now`: the request, with a
    /// hop for `from` over its path and no signature, goes to the peers closest to
    /// its destination, and the destination is recorded as asked at `now`.
    #[allow(non_snake_case)]
    pub fn doFindReqRelay(&mut self, from: &Vec<u8>, find_req: &FindRouteReq, now: u64) -> (r: Vec<Transp2pAction>)
        requires
            old(self).wf(),
            old(self)@.local_id.len() >= 6,
            find_req.dest@.len() >= 6,
        ensures
            final(self).wf(),
            after_puts(old(self)@, final(self)@, seq![find_req.dest@], now),
            final(self)@ == (Transp2pView {
                route_req_sent: final(self)@.route_req_sent,
                route_req_order: final(self)@.route_req_order,
                ..old(self)@
            }),
            r@.len() == closest_peers(old(self)@.buckets, find_req.dest@, find_req.alpha as int).len(),
            forall|i: int|
                0 <= i < r@.len() ==> sends_find_route(
                    #[trigger] r@[i],
                    closest_peers(old(self)@.buckets, find_req.dest@, find_req.alpha as int)[i],
                    FindRouteView {
                        pathes: extended_path(find_req@.pathes, from@),
                        sign: Seq::empty(),
                        ..find_req@
                    },
                ),
    {
        let targets = self.buckets.get_closet_peers(&find_req.dest, find_req.alpha as usize);
        let ghost s0 = self@;
        sent_cache_put(&mut self.route_req_sent, copy_bytes(&find_req.dest), now);
        proof {
            let one = seq![find_req.dest@];
            let cap = MAX_ROUTE_PENDING_ITEM as nat;
            assert(one.drop_last() =~= Seq::<Seq<u8>>::empty());
            assert(one.last() == find_req.dest@);
            assert(stored_all(s0.route_req_sent, s0.route_req_order, cap, one.drop_last(), now) == s0.route_req_sent);
            assert(lru_uses(s0.route_req_order, one.drop_last(), cap) == s0.route_req_order);
            assert(stored_all(s0.route_req_sent, s0.route_req_order, cap, one, now) == lru_stored(
                s0.route_req_sent,
                s0.route_req_order,
                cap,
                find_req.dest@,
                now,
            ));
            assert(lru_uses(s0.route_req_order, one, cap) == lru_used(s0.route_req_order, find_req.dest@, cap));
        }
        let new_req = FindRouteReq {
            src: copy_bytes(&find_req.src),
            create_time: find_req.create_time,
            dest: copy_bytes(&find_req.dest),
            alpha: find_req.alpha,
            pathes: extend_path(&find_req.pathes, from),
            ttl: find_req.ttl,
            sign: Vec::new(),
        };
        let ghost tv = keys_view(targets);
        let ghost want = FindRouteView { pathes: extended_path(find_req@.pathes, from@), sign: Seq::empty(), ..find_req@ };
        assert(new_req@ == want) by {
            assert(new_req.sign@ =~= Seq::<u8>::empty());
        }
        let mut out: Vec<Transp2pAction> = Vec::new();
        let mut i: usize = 0;
        while i < targets.len()
            invariant
                new_req@ == want,
                want == (FindRouteView { pathes: extended_path(find_req@.pathes, from@), sign: Seq::empty(), ..find_req@ }),
                tv == keys_view(targets),
                0 <= i <= tv.len(),
                out@.len() == i,
                forall|j: int|
                    0 <= j < i ==> sends_find_route(
                        #[trigger] out@[j],
                        tv[j],
                        FindRouteView { pathes: extended_path(find_req@.pathes, from@), sign: Seq::empty(), ..find_req@ },
                    ),
            decreases tv.len() - i,
        {
            out.push(Transp2pAction::Send(copy_bytes(&targets[i]), TransppEventOut::FindRouteEvt(new_req.clone())));
            i = i + 1;
        }
        out
    }

    /// Relays `relay_req`, come from `from` (ourselves for data of our own), at time
    /// `now`; see [`data_relayed`]. A destination without a route is looked up in the
    /// distance buckets, which need a peer id of at least six bytes.
    #[allow(non_snake_case)]
    pub fn doDataRelay(&mut self, from: &Vec<u8>, relay_req: &RelayDataReq, now: u64) -> (r: Vec<Transp2pAction>)
        requires
            old(self).wf(),
            old(self)@.local_id.len() >= 6,
            relay_req.route_info.dest@.len() >= 6 || old(self)@.routes.contains_key(relay_req.route_info.dest@),
        ensures
            final(self).wf(),
            data_relayed(old(self)@, final(self)@, from@, relay_req@, now, r@),
    {
        let ghost s0 = self@;
        let dest = &relay_req.route_info.dest;
        add_to_list(&mut self.data_relay_sent, dest, &relay_req.hash);
        assert(self@ == Transp2pView { data_relay_sent: self@.data_relay_sent, ..s0 });
        let mut out: Vec<Transp2pAction> = Vec::new();
        match self.table.get(copy_bytes(dest)) {
            Some(hops) => {
                let msg = if bytes_equal(from, &self.local_id) {
                    relay_req.clone()
                } else {
                    RelayDataReq {
                        route_info: FindRouteReq {
                            src: copy_bytes(&relay_req.route_info.src),
                            create_time: relay_req.route_info.create_time,
                            dest: copy_bytes(&relay_req.route_info.dest),
                            alpha: relay_req.route_info.alpha,
                            pathes: extend_path(&relay_req.route_info.pathes, from),
                            ttl: relay_req.route_info.ttl,
                            sign: copy_bytes(&relay_req.route_info.sign),
                        },
                        hash: copy_bytes(&relay_req.hash),
                        tags: clone_tags(&relay_req.tags),
                        data: copy_bytes(&relay_req.data),
                        sign_packet: copy_bytes(&relay_req.sign_packet),
                    }
                };
                let ghost mv = msg@;
                let ghost hv = hops_view(hops);
                assert(mv == if from@ == s0.local_id {
                    relay_req@
                } else {
                    relayed_on(relay_req@, from@)
                });
                assert(hv == s0.routes[dest@]);
                proof {
                    lemma_hops_distinct(hops@);
                }
                let alpha = relay_req.route_info.alpha as usize;
                let count = if alpha < hops.len() {
                    alpha
                } else {
                    hops.len()
                };
                let mut i: usize = 0;
                while i < count
                    invariant
                        count <= hops@.len(),
                        count <= alpha,
                        count == alpha || count == hops@.len(),
                        mv == msg@,
                        hv == hops_view(hops),
                        crate::route_tab::distinct_nexts(hops@),
                        forall|j: int|
                            0 <= j < hops@.len() ==> #[trigger] hv.contains_key(hops@[j].next@),
                        0 <= i <= count,
                        out@.len() == i,
                        forall|j: int| 0 <= j < i ==> sends_relay(#[trigger] out@[j], mv) && recipient(out@[j]) == hops@[j].next@,
                    decreases count - i,
                {
                    out.push(Transp2pAction::Send(copy_bytes(&hops[i].next), TransppEventOut::RelayDataEvt(msg.clone())));
                    i = i + 1;
                }
                proof {
                    assert(crate::route_tab::hops_seq_view(hops@) == hv);
                    assert forall|j: int| 0 <= j < out@.len() implies hv.contains_key(recipient(#[trigger] out@[j])) by {
                        assert(recipient(out@[j]) == hops@[j].next@);
                    }
                    assert forall|a: int, b: int|
                        0 <= a < out@.len() && 0 <= b < out@.len() && a != b implies recipient(#[trigger] out@[a])
                        != recipient(#[trigger] out@[b]) by {
                        assert(recipient(out@[a]) == hops@[a].next@);
                        assert(recipient(out@[b]) == hops@[b].next@);
                    }
                    if out@.len() < alpha {
                        assert forall|n: Seq<u8>| #[trigger] hv.contains_key(n) implies exists|k: int|
                            0 <= k < out@.len() && recipient(out@[k]) == n by {
                            let j = choose|j: int| 0 <= j < hops@.len() && hops@[j].next@ == n;
                            assert(recipient(out@[j]) == n);
                        }
                    }
                    assert(relayed_to_hops(out@, hv, relay_req.route_info.alpha as int, mv));
                    assert(self@ == Transp2pView { data_relay_sent: self@.data_relay_sent, ..s0 });
                }
            },
            None => {
                let (find_req, peers) = self.find_route_at(
                    copy_bytes(dest),
                    relay_req.route_info.alpha,
                    relay_req.route_info.ttl,
                    now,
                );
                let ghost pv = keys_view(peers);
                assert(find_req@ == route_request(s0.local_id, dest@, relay_req.route_info.alpha, relay_req.route_info.ttl, now)) by {
                    assert(find_req.sign@ =~= Seq::<u8>::empty());
                }
                let mut i: usize = 0;
                while i < peers.len()
                    invariant
                        pv == keys_view(peers),
                        0 <= i <= pv.len(),
                        out@.len() == i,
                        forall|j: int| 0 <= j < i ==> sends_find_route(#[trigger] out@[j], pv[j], find_req@),
                    decreases pv.len() - i,
                {
                    out.push(Transp2pAction::Send(copy_bytes(&peers[i]), TransppEventOut::FindRouteEvt(find_req.clone())));
                    i = i + 1;
                }
                let ghost s1 = self@;
                add_to_queue(&mut self.pending_data_for_route, dest, relay_req.clone());
                proof {
                    let q = self@.pending_data_for_route;
                    let q0 = s1.pending_data_for_route;
                    assert forall|k: Seq<u8>| #[trigger] q.contains_key(k) implies k.len() >= 6 && forall|i: int|
                        0 <= i < q[k].len() ==> (#[trigger] q[k][i]).route_info.dest == k by {
                        if k != dest@ {
                            assert(q0.contains_key(k) && q[k] == q0[k]);
                        } else if q0.contains_key(k) {
                            assert(q[k] == q0[k].push(relay_req@));
                            assert forall|i: int| 0 <= i < q[k].len() implies (#[trigger] q[k][i]).route_info.dest == k by {
                                if i < q0[k].len() {
                                    assert(q[k][i] == q0[k][i]);
                                }
                            }
                        } else {
                            assert(q[k] == seq![relay_req@]);
                        }
                    }
                }
            },
        }
        out
    }

    /// The routes to `target` changed, at `now`: see [`route_updated`].
    #[allow(non_snake_case)]
    pub fn onRouteUpdated(&mut self, target: &Vec<u8>, now: u64) -> (r: Vec<Transp2pAction>)
        requires
            old(self).wf(),
            old(self)@.local_id.len() >= 6,
        ensures
            final(self).wf(),
            final(self)@.local_id == old(self)@.local_id,
            route_updated(old(self)@, final(self)@, target@, now, r@),
    {
        let ghost s0 = self@;
        let mut out: Vec<Transp2pAction> = Vec::new();
        if self.table.get(copy_bytes(target)).is_none() {
            return out;
        }
        let ghost e0 = queue_cache_entries(self.pending_data_for_route);
        let reqs = match queue_cache_pop(&mut self.pending_data_for_route, target) {
            Some(v) => v,
            None => {
                assert(queue_cache_entries(self.pending_data_for_route) =~= e0);
                assert(self@ == s0);
                return out;
            },
        };
        let ghost rv = relays_view(reqs);
        let ghost s1 = Transp2pView { pending_data_for_route: s0.pending_data_for_route.remove(target@), ..s0 };
        proof {
            assert(queues_view(queue_cache_entries(self.pending_data_for_route)) =~= queues_view(e0).remove(target@));
            assert(self@ == s1);
            assert(rv == s0.pending_data_for_route[target@]);
            assert(s0.pending_data_for_route.contains_key(target@));
            assert forall|k: Seq<u8>| #[trigger] self@.pending_data_for_route.contains_key(k) implies k.len() >= 6
                && forall|i: int| 0 <= i < self@.pending_data_for_route[k].len() ==> (#[trigger] self@.pending_data_for_route[k][i]).route_info.dest == k by {
                assert(s0.pending_data_for_route.contains_key(k));
            }
            assert forall|i: int| 0 <= i < rv.len() implies (#[trigger] rv[i]).route_info.dest == target@ by {
                assert(s0.pending_data_for_route[target@][i].route_info.dest == target@);
            }
            assert(target@.len() >= 6);
            assert(queue_relayed(s1, self@, rv.take(0), now, out@)) by {
                assert(rv.take(0).len() == 0);
            }
        }
        let mut i: usize = 0;
        while i < reqs.len()
            invariant
                self.wf(),
                self@.local_id == s0.local_id,
                s0.local_id.len() >= 6,
                rv == relays_view(reqs),
                target@.len() >= 6,
                forall|j: int| 0 <= j < rv.len() ==> (#[trigger] rv[j]).route_info.dest == target@,
                0 <= i <= rv.len(),
                queue_relayed(s1, self@, rv.take(i as int), now, out@),
            decreases rv.len() - i,
        {
            let ghost mid = self@;
            let ghost k = out@.len() as int;
            let ghost before = out@;
            assert(rv[i as int] == reqs@[i as int]@);
            let held = data_cache_get(&mut self.data_cache, &reqs[i].hash).is_some();
            assert(self@ == mid);
            assert(held == mid.data_cache.contains_key(rv[i as int].hash));
            if held {
                let local = copy_bytes(&self.local_id);
                let mut acts = self.doDataRelay(&local, &reqs[i], now);
                let ghost av = acts@;
                out.append(&mut acts);
                proof {
                    assert(out@.take(k) =~= before);
                    assert(out@.skip(k) =~= av);
                }
            }
            proof {
                let nt = rv.take(i + 1);
                assert(nt.drop_last() =~= rv.take(i as int));
                assert(nt.last() == rv[i as int]);
                assert(out@.take(k) =~= before);
                assert(queue_relayed(s1, mid, nt.drop_last(), now, out@.take(k)));
                if held {
                    assert(data_relayed(mid, self@, mid.local_id, nt.last(), now, out@.skip(k)));
                } else {
                    assert(self@ == mid && out@.skip(k).len() == 0);
                }
                assert(relay_if_held(mid, self@, nt.last(), now, out@.skip(k)));
                assert(queue_relayed(s1, self@, nt, now, out@));
            }
            i = i + 1;
        }
        proof {
            assert(rv.take(rv.len() as int) =~= rv);
        }
        out
    }

    /// Answers, for `target`, the peers that asked for it, when some next hop to
    /// `target` is connected; see [`route_answered`].
    fn answer_route(&self, target: &Vec<u8>) -> (r: (Vec<Transp2pAction>, bool))
        requires
            self.wf(),
            self@.local_id.len() >= 6,
        ensures
            route_answered(self@, target@, r.0@),
            r.0@.len() == answer_count(self@, target@),
            r.1 == can_answer(self@, target@),
    {
        match self.connected_route_items(target) {
            Some(items) => {
                let r = self.doRouteResponse(target, &items);
                proof {
                    let route = items_view(items);
                    assert(route.to_set() == connected_items(self@.routes[target@], self@.buckets));
                    assert(askers(self@, target@).len() == r@.len());
                    assert forall|i: int| 0 <= i < r@.len() implies sends_route_resp(
                        #[trigger] r@[i],
                        askers(self@, target@)[i],
                        target@,
                        route,
                    ) by {
                        assert(self@.route_req_recv.contains_key(target@));
                    }
                }
                (r, true)
            },
            None => (Vec::new(), false),
        }
    }

    /// A route request `find_req` came from `from`, at `now`: the actions it calls
    /// for, and whether it is to be passed on; see [`route_request_handled`].
    #[allow(non_snake_case)]
    pub fn onFindRouteReq(&mut self, from: &Vec<u8>, find_req: &FindRouteReq, now: u64) -> (r: (Vec<Transp2pAction>, bool))
        requires
            old(self).wf(),
            old(self)@.local_id.len() >= 6,
        ensures
            final(self).wf(),
            final(self)@.local_id == old(self)@.local_id,
            route_request_handled(old(self)@, final(self)@, from@, find_req@, now, r.0@, r.1),
    {
        let ghost s0 = self@;
        if sent_cache_peek(&self.route_req_sent, from).is_some() {
            return (Vec::new(), false);
        }
        add_to_list(&mut self.route_req_recv, &find_req.dest, from);
        let mut items: Vec<RouteItemsWithTime> = Vec::new();
        items.push(request_item(find_req));
        assert(times_view(items) =~= seq![request_route_item(find_req@)]);
        self.table.add_route_items_at(copy_bytes(&find_req.src), copy_bytes(from), &items, now);
        let ghost s2 = self@;
        assert(route_learnt(s0, s2, from@, find_req@, now));
        let mut acts = self.onRouteUpdated(&find_req.src, now);
        let ghost a1 = acts@;
        let ghost t = self@;
        let (mut src_answers, _) = self.answer_route(&find_req.src);
        let ghost a2 = src_answers@;
        acts.append(&mut src_answers);
        let mut need_forward = !bytes_equal(&self.local_id, &find_req.dest);
        if sent_cache_peek(&self.route_req_sent, &find_req.dest).is_some() {
            need_forward = false;
        }
        let (mut dest_answers, answered) = self.answer_route(&find_req.dest);
        let ghost a3 = dest_answers@;
        if answered {
            need_forward = false;
        }
        acts.append(&mut dest_answers);
        proof {
            let n1 = a1.len() as int;
            let ns = a2.len() as int;
            assert(acts@.take(n1) =~= a1);
            assert(acts@.subrange(n1, n1 + ns) =~= a2);
            assert(acts@.skip(n1 + ns) =~= a3);
        }
        (acts, need_forward)
    }

    /// An answer `find_resp` to a route request came from `from`, at `now`: see
    /// [`route_response_handled`].
    #[allow(non_snake_case)]
    pub fn onFindRouteResp(&mut self, from: &Vec<u8>, find_resp: &FindRouteResp, now: u64) -> (r: Vec<Transp2pAction>)
        requires
            old(self).wf(),
            old(self)@.local_id.len() >= 6,
        ensures
            final(self).wf(),
            final(self)@.local_id == old(self)@.local_id,
            route_response_handled(
                old(self)@,
                final(self)@,
                from@,
                find_resp.dest@,
                items_view(find_resp.route),
                now,
                r@,
            ),
    {
        let ghost s0 = self@;
        let ghost iv = items_view(find_resp.route);
        let mut i: usize = 0;
        assert(iv.take(0).len() == 0);
        while i < find_resp.route.len()
            invariant
                self.wf(),
                self@.local_id.len() >= 6,
                iv == items_view(find_resp.route),
                0 <= i <= iv.len(),
                self@ == (Transp2pView { routes: self@.routes, ..s0 }),
                items_learnt(s0.routes, self@.routes, find_resp.dest@, from@, iv.take(i as int), now),
            decreases iv.len() - i,
        {
            let ghost mid = self@.routes;
            let mut items: Vec<RouteItemsWithTime> = Vec::new();
            items.push(RouteItemsWithTime { create_time: now, item: find_resp.route[i].clone() });
            let ghost one = seq![RouteItemsWithTimeView { create_time: now, item: iv[i as int] }];
            assert(times_view(items) =~= one);
            self.table.add_route_items_at(copy_bytes(&find_resp.dest), copy_bytes(from), &items, now);
            proof {
                let nt = iv.take(i + 1);
                assert(nt.drop_last() =~= iv.take(i as int));
                assert(nt.last() == iv[i as int]);
                assert(routes_added_at(mid, self@.routes, find_resp.dest@, from@, one, now));
            }
            i = i + 1;
        }
        assert(iv.take(iv.len() as int) =~= iv);
        let ghost r2 = self@.routes;
        let mut acts = self.onRouteUpdated(&find_resp.dest, now);
        let ghost a1 = acts@;
        let (mut answers, _) = self.answer_route(&find_resp.dest);
        let ghost a2 = answers@;
        acts.append(&mut answers);
        proof {
            assert(acts@.take(a1.len() as int) =~= a1);
            assert(acts@.skip(a1.len() as int) =~= a2);
            assert(route_updated(Transp2pView { routes: r2, ..s0 }, self@, find_resp.dest@, now, acts@.take(a1.len() as int)));
        }
        acts
    }

    /// Data arrived for a pull, from `from`, at `now`: see [`pulled_data_handled`].
    #[allow(non_snake_case)]
    pub fn onPullDataResp(&mut self, from: &Vec<u8>, data_resp: &PullDataResp, now: u64) -> (r: Vec<Transp2pAction>)
        requires
            old(self).wf(),
            old(self)@.local_id.len() >= 6,
        ensures
            final(self).wf(),
            final(self)@.local_id == old(self)@.local_id,
            pulled_data_handled(old(self)@, final(self)@, data_resp.hash@, data_resp.data@, now, r@),
    {
        let ghost s0 = self@;
        let mut out: Vec<Transp2pAction> = Vec::new();
        if !self.keep_pulled_data(data_resp) {
            return out;
        }
        let ghost s1 = self@;
        let hash = &data_resp.hash;
        let ghost e0 = wait_cache_entries(self.pending_hash_for_data);
        let waiting = match wait_cache_pop(&mut self.pending_hash_for_data, hash) {
            Some(w) => w,
            None => {
                assert(wait_cache_entries(self.pending_hash_for_data) =~= e0);
                return out;
            },
        };
        let ghost wv = waiting_view(waiting);
        let ghost s2 = Transp2pView { pending_hash_for_data: s1.pending_hash_for_data.remove(hash@), ..s1 };
        proof {
            assert(waits_view(wait_cache_entries(self.pending_hash_for_data)) =~= waits_view(e0).remove(hash@));
            assert(self@ == s2);
            assert(wv == s1.pending_hash_for_data[hash@]);
            assert forall|i: int| 0 <= i < wv.len() implies (#[trigger] wv[i]).0.len() >= 6 && wv[i].1.route_info.dest.len()
                >= 6 by {
                assert(s1.pending_hash_for_data.contains_key(hash@));
                assert(s1.pending_hash_for_data[hash@][i] == wv[i]);
            }
            let w = self@.pending_hash_for_data;
            assert forall|h: Seq<u8>, i: int| #[trigger] w.contains_key(h) && 0 <= i < w[h].len() implies (
            #[trigger] w[h][i]).0.len() >= 6 && w[h][i].1.route_info.dest.len() >= 6 by {
                assert(s1.pending_hash_for_data.contains_key(h));
            }
            assert(waiters_served(s2, self@, wv.take(0), hash@, data_resp.data@, now, out@)) by {
                assert(wv.take(0).len() == 0);
            }
        }
        let mut i: usize = 0;
        while i < waiting.len()
            invariant
                self.wf(),
                self@.local_id == s0.local_id,
                s0.local_id.len() >= 6,
                wv == waiting_view(waiting),
                forall|j: int| 0 <= j < wv.len() ==> (#[trigger] wv[j]).0.len() >= 6 && wv[j].1.route_info.dest.len() >= 6,
                0 <= i <= wv.len(),
                waiters_served(s2, self@, wv.take(i as int), hash@, data_resp.data@, now, out@),
                self@.data_cache == s1.data_cache,
            decreases wv.len() - i,
        {
            let ghost mid = self@;
            let ghost k = out@.len() as int;
            let ghost before = out@;
            assert(wv[i as int] == (waiting@[i as int].0@, waiting@[i as int].1@));
            let (f, req) = (&waiting[i].0, &waiting[i].1);
            if bytes_equal(&req.route_info.dest, &self.local_id) {
                out.push(
                    Transp2pAction::Report(
                        CustomEventOut::DataRelay(req.route_info.clone(), copy_bytes(hash), copy_bytes(&data_resp.data)),
                    ),
                );
                proof {
                    assert(out@.skip(k) =~= seq![out@[k]]);
                }
            } else {
                let mut acts = self.doDataRelay(f, req, now);
                let ghost av = acts@;
                out.append(&mut acts);
                proof {
                    assert(out@.skip(k) =~= av);
                }
            }
            proof {
                let nt = wv.take(i + 1);
                assert(nt.drop_last() =~= wv.take(i as int));
                assert(nt.last() == wv[i as int]);
                assert(out@.take(k) =~= before);
                assert(waiters_served(s2, mid, nt.drop_last(), hash@, data_resp.data@, now, out@.take(k)));
                assert(waiter_served(mid, self@, nt.last(), hash@, data_resp.data@, now, out@.skip(k)));
                assert(waiters_served(s2, self@, nt, hash@, data_resp.data@, now, out@));
            }
            i = i + 1;
        }
        assert(wv.take(wv.len() as int) =~= wv);
        out
    }

    /// Retries the data retrievals that are overdue at `now`: see
    /// [`retrievals_ticked`] and [`retrievals_asked`].
    pub fn retry_retrievals(&mut self, now: u64) -> (r: Vec<Transp2pAction>)
        requires
            old(self).wf(),
        ensures
            final(self).wf(),
            final(self)@ == (Transp2pView {
                pending_data_retrieve: retrievals_ticked(
                    old(self)@.pending_data_retrieve,
                    old(self)@.pending_data_retrieve.dom(),
                    now,
                    old(self)@.data_cache,
                ),
                ..old(self)@
            }),
            retrievals_asked(
                r@,
                old(self)@.pending_data_retrieve,
                old(self)@.pending_data_retrieve.dom(),
                now,
                old(self)@.data_cache,
            ),
    {
        let ghost s0 = self@;
        let ghost m0 = s0.pending_data_retrieve;
        let ghost dc = s0.data_cache;
        let keys = retrieve_cache_keys(&self.pending_data_retrieve);
        let ghost ks = keys_view(keys);
        let mut out: Vec<Transp2pAction> = Vec::new();
        proof {
            assert(ks.to_set() == m0.dom());
            assert(ks.take(0).to_set() =~= Set::<Seq<u8>>::empty());
            assert(retrievals_ticked(m0, Set::empty(), now, dc) =~= m0);
        }
        let mut i: usize = 0;
        while i < keys.len()
            invariant
                self.wf(),
                dc == s0.data_cache,
                m0 == s0.pending_data_retrieve,
                ks == keys_view(keys),
                ks.no_duplicates(),
                ks.to_set() == m0.dom(),
                0 <= i <= ks.len(),
                self@ == (Transp2pView {
                    pending_data_retrieve: retrievals_ticked(m0, ks.take(i as int).to_set(), now, dc),
                    ..s0
                }),
                retrievals_asked(out@, m0, ks.take(i as int).to_set(), now, dc),
            decreases ks.len() - i,
        {
            let ghost done = ks.take(i as int).to_set();
            let ghost done2 = ks.take(i + 1).to_set();
            let ghost k = ks[i as int];
            let ghost cur = self@.pending_data_retrieve;
            proof {
                assert(ks.take(i + 1) =~= ks.take(i as int).push(k));
                ks.take(i as int).lemma_push_to_set_commute(k);
                assert(done2 =~= done.insert(k));
                assert(!done.contains(k)) by {
                    if done.contains(k) {
                        let j = choose|j: int| 0 <= j < i && ks.take(i as int)[j] == k;
                        assert(ks[j] == ks[i as int]);
                    }
                }
                assert(ks.to_set().contains(k));
                assert(m0.contains_key(k));
                assert(cur.contains_key(k) && cur[k] == m0[k]);
                assert(k == keys@[i as int]@);
            }
            let ghost e0 = retrieve_cache_entries(self.pending_data_retrieve);
            let entry = retrieve_cache_peek(&self.pending_data_retrieve, &keys[i]);
            let (time, peers0) = match entry {
                Some(e) => (e.0, &e.1),
                None => {
                    assert(false);
                    (0, &keys)
                },
            };
            let ghost before = out@;
            let ghost mut pushed = false;
            assert(self@.data_cache == dc);
            assert(data_cache_entries(self.data_cache).contains_key(k) == dc.contains_key(k));
            assert(time == m0[k].0 && keys_view(*peers0) == m0[k].1) by {
                assert(retrievals_view(e0)[k] == cur[k]);
            }
            if now > time && now - time > MAX_DATA_RETRIEVE {
                let mut peers = crate::bytes::copy_keys(peers0);
                let ghost pv0 = keys_view(peers);
                if peers.len() > 0 {
                    peers.pop();
                    assert(keys_view(peers) =~= pv0.drop_last());
                }
                if peers.len() > 0 {
                    let held = data_cache_get(&mut self.data_cache, &keys[i]).is_some();
                    let new_time = if held {
                        time
                    } else {
                        now
                    };
                    assert(held == dc.contains_key(k));
                    if !held {
                        out.push(self.doPullData(&peers[0], &keys[i]));
                        proof {
                            assert(keys_view(peers)[0] == peers@[0]@);
                            assert(peers@[0]@ == m0[k].1[0]);
                            assert(asked_again(m0, now, dc, k));
                            assert(pulled_hash(out@[out@.len() - 1]) == k);
                            pushed = true;
                        }
                    }
                    let ghost nv = (new_time, peers);
                    retrieve_cache_pop(&mut self.pending_data_retrieve, &keys[i]);
                    retrieve_cache_put(&mut self.pending_data_retrieve, copy_bytes(&keys[i]), (new_time, peers));
                    proof {
                        assert(e0.remove(k).len() < MAX_DATA_CACHE_COUNT) by {
                            assert(e0.remove(k).dom() =~= e0.dom().remove(k));
                        }
                        assert(retrievals_view(retrieve_cache_entries(self.pending_data_retrieve)) =~= retrievals_view(
                            e0,
                        ).insert(k, (new_time, keys_view(nv.1))));
                    }
                } else {
                    retrieve_cache_pop(&mut self.pending_data_retrieve, &keys[i]);
                    assert(retrievals_view(retrieve_cache_entries(self.pending_data_retrieve)) =~= retrievals_view(
                        e0,
                    ).remove(k));
                }
            }
            proof {
                let nm = retrievals_ticked(m0, done2, now, dc);
                assert(self@.pending_data_retrieve =~= nm);
                assert(self@ == (Transp2pView { pending_data_retrieve: nm, ..s0 }));
                let acts = out@;
                assert forall|a: int| 0 <= a < acts.len() implies done2.contains(pulled_hash(#[trigger] acts[a]))
                    && asked_again(m0, now, dc, pulled_hash(acts[a])) && sends_pull(
                    acts[a],
                    m0[pulled_hash(acts[a])].1[0],
                    pulled_hash(acts[a]),
                ) by {
                    if a < before.len() {
                        assert(acts[a] == before[a]);
                    }
                }
                assert forall|a: int, b: int|
                    0 <= a < acts.len() && 0 <= b < acts.len() && a != b implies pulled_hash(#[trigger] acts[a])
                    != pulled_hash(#[trigger] acts[b]) by {
                    if a < before.len() && b < before.len() {
                        assert(acts[a] == before[a] && acts[b] == before[b]);
                    } else if a < before.len() {
                        assert(acts[a] == before[a]);
                        assert(done.contains(pulled_hash(before[a])));
                    } else {
                        assert(acts[b] == before[b]);
                        assert(done.contains(pulled_hash(before[b])));
                    }
                }
                assert forall|h: Seq<u8>| done2.contains(h) && #[trigger] asked_again(m0, now, dc, h) implies exists|a: int|
                    0 <= a < acts.len() && pulled_hash(acts[a]) == h by {
                    if h == k {
                        assert(pushed);
                        assert(pulled_hash(acts[acts.len() - 1]) == h);
                    } else {
                        assert(done.contains(h));
                        let a = choose|a: int| 0 <= a < before.len() && pulled_hash(before[a]) == h;
                        assert(acts[a] == before[a]);
                    }
                }
            }
            i = i + 1;
        }
        proof {
            assert(ks.take(ks.len() as int) =~= ks);
        }
        out
    }

    /// Periodic maintenance at `now`: forgets the route requests that have expired
    /// (see [`unexpired`]) and retries the overdue data retrievals (see
    /// [`Self::retry_retrievals`]).
    pub fn tick_at(&mut self, now: u64) -> (r: Vec<Transp2pAction>)
        requires
            old(self).wf(),
        ensures
            final(self).wf(),
            final(self)@ == (Transp2pView {
                route_req_sent: unexpired(old(self)@.route_req_sent, now),
                route_req_order: unexpired_order(old(self)@.route_req_order, old(self)@.route_req_sent, now),
                pending_data_retrieve: retrievals_ticked(
                    old(self)@.pending_data_retrieve,
                    old(self)@.pending_data_retrieve.dom(),
                    now,
                    old(self)@.data_cache,
                ),
                ..old(self)@
            }),
            retrievals_asked(
                r@,
                old(self)@.pending_data_retrieve,
                old(self)@.pending_data_retrieve.dom(),
                now,
                old(self)@.data_cache,
            ),
    {
        self.expire_route_requests(now);
        self.retry_retrievals(now)
    }

    /// Periodic maintenance now: see [`Self::tick_at`]. Does nothing when the clock
    /// lies before the Unix epoch.
    pub fn on_tick(&mut self) -> (r: Vec<Transp2pAction>)
        requires
            old(self).wf(),
        ensures
            final(self).wf(),
            (final(self)@ == old(self)@ && r@.len() == 0) || exists|now: u64|
                final(self)@ == (Transp2pView {
                    route_req_sent: #[trigger] unexpired(old(self)@.route_req_sent, now),
                    route_req_order: unexpired_order(old(self)@.route_req_order, old(self)@.route_req_sent, now),
                    pending_data_retrieve: retrievals_ticked(
                        old(self)@.pending_data_retrieve,
                        old(self)@.pending_data_retrieve.dom(),
                        now,
                        old(self)@.data_cache,
                    ),
                    ..old(self)@
                }) && retrievals_asked(
                    r@,
                    old(self)@.pending_data_retrieve,
                    old(self)@.pending_data_retrieve.dom(),
                    now,
                    old(self)@.data_cache,
                ),
    {
        match unix_now_secs() {
            Ok(now) => self.tick_at(now),
            Err(_) => Vec::new(),
        }
    }

    /// A message came from `who`, at `now`: see [`message_handled`].
    pub fn on_custom_message_at(&mut self, who: &Vec<u8>, message: &TransppEventOut, now: u64) -> (r: Vec<Transp2pAction>)
        requires
            old(self).wf(),
            old(self)@.local_id.len() >= 6,
            who@.len() >= 6,
            message_ids_ok(*message),
        ensures
            final(self).wf(),
            final(self)@.local_id == old(self)@.local_id,
            message_handled(old(self)@, final(self)@, who@, *message, now, r@),
    {
        match message {
            TransppEventOut::FindRouteEvt(q) => {
                let (acts, forward) = self.onFindRouteReq(who, q, now);
                acts
            },
            TransppEventOut::FindRouteRespEvt(resp) => self.onFindRouteResp(who, resp, now),
            TransppEventOut::RelayDataEvt(req) => self.onDataRelay(who, req, now),
            TransppEventOut::PullDataEvt(p) => {
                let mut out: Vec<Transp2pAction> = Vec::new();
                match self.onPullData(who, &p.hash) {
                    Some(resp) => {
                        out.push(Transp2pAction::Send(copy_bytes(who), TransppEventOut::PullDataRespEvt(resp)));
                    },
                    None => {},
                }
                out
            },
            TransppEventOut::PullDataRespEvt(p) => self.onPullDataResp(who, p, now),
            TransppEventOut::NoEvent => Vec::new(),
        }
    }

    /// A message came from `who`: see [`Self::on_custom_message_at`], at the current
    /// time. A request for data (or an empty message) is handled without the clock;
    /// any other message fails, changing nothing, when the clock lies before the Unix
    /// epoch.
    pub fn on_custom_message(&mut self, who: &Vec<u8>, message: &TransppEventOut) -> (r: Result<Vec<Transp2pAction>, ClockError>)
        requires
            old(self).wf(),
            old(self)@.local_id.len() >= 6,
            who@.len() >= 6,
            message_ids_ok(*message),
        ensures
            final(self).wf(),
            final(self)@.local_id == old(self)@.local_id,
            match r {
                Ok(acts) => message_handled_now(old(self)@, final(self)@, who@, *message, acts@),
                Err(_) => final(self)@ == old(self)@,
            },
            (*message is PullDataEvt || *message is NoEvent) ==> r is Ok,
    {
        let ghost s0 = self@;
        if let TransppEventOut::PullDataEvt(_) = message {
            let acts = self.on_custom_message_at(who, message, 0);
            assert(message_handled_now(s0, self@, who@, *message, acts@));
            return Ok(acts);
        }
        if let TransppEventOut::NoEvent = message {
            let acts = self.on_custom_message_at(who, message, 0);
            assert(message_handled_now(s0, self@, who@, *message, acts@));
            return Ok(acts);
        }
        match unix_now_secs() {
            Ok(now) => {
                let acts = self.on_custom_message_at(who, message, now);
                assert(message_handled(s0, self@, who@, *message, now, acts@));
                assert(message_handled_now(s0, self@, who@, *message, acts@));
                Ok(acts)
            },
            Err(e) => Err(e),
        }
    }

    /// A request to `target` for the data of `hash`.
    #[allow(non_snake_case)]
    fn doPullData(&self, target: &Vec<u8>, hash: &Vec<u8>) -> (r: Transp2pAction)
        ensures
            sends_pull(r, target@, hash@),
    {
        Transp2pAction::Send(copy_bytes(target), TransppEventOut::PullDataEvt(PullDataReq { hash: copy_bytes(hash) }))
    }

    /// A relay request came from `from`, at `now`: see [`data_relay_handled`].
    #[allow(non_snake_case)]
    pub fn onDataRelay(&mut self, from: &Vec<u8>, relay_req: &RelayDataReq, now: u64) -> (r: Vec<Transp2pAction>)
        requires
            old(self).wf(),
            old(self)@.local_id.len() >= 6,
            from@.len() >= 6,
            relay_req.route_info.dest@.len() >= 6,
        ensures
            final(self).wf(),
            final(self)@.local_id == old(self)@.local_id,
            data_relay_handled(old(self)@, final(self)@, from@, relay_req@, now, r@),
    {
        let ghost s0 = self@;
        let (mut acts, forward) = self.onFindRouteReq(from, &relay_req.route_info, now);
        let ghost s1 = self@;
        let ghost a0 = acts@;
        let ghost k = a0.len() as int;
        let dest = &relay_req.route_info.dest;
        let hash = &relay_req.hash;
        match list_cache_peek(&self.data_relay_sent, dest) {
            Some(sent) => {
                if contains_bytes(sent, hash) {
                    proof {
                        assert(acts@.take(k) =~= a0);
                        assert(acts@.skip(k).len() == 0);
                    }
                    return acts;
                }
            },
            None => {},
        }
        let data = if relay_req.data.len() > 0 {
            Some(copy_bytes(&relay_req.data))
        } else {
            data_cache_get(&mut self.data_cache, hash)
        };
        assert(self@ == s1);
        match data {
            None => {
                let ghost e0 = retrieve_cache_entries(self.pending_data_retrieve);
                match retrieve_cache_pop(&mut self.pending_data_retrieve, hash) {
                    Some(entry) => {
                        let (time, mut peers) = entry;
                        let ghost p0 = keys_view(peers);
                        peers.push(copy_bytes(from));
                        assert(keys_view(peers) =~= p0.push(from@));
                        let ghost nv = (time, peers);
                        retrieve_cache_put(&mut self.pending_data_retrieve, copy_bytes(hash), (time, peers));
                        proof {
                            assert(e0.remove(hash@).len() < retrieve_cache_cap(self.pending_data_retrieve)) by {
                                assert(e0.remove(hash@).dom() =~= e0.dom().remove(hash@));
                            }
                            assert(retrievals_view(retrieve_cache_entries(self.pending_data_retrieve)) =~= retrievals_view(
                                e0,
                            ).insert(hash@, (time, p0.push(from@))));
                        }
                    },
                    None => {
                        assert(retrieve_cache_entries(self.pending_data_retrieve) =~= e0);
                        let mut peers: Vec<Vec<u8>> = Vec::new();
                        peers.push(copy_bytes(from));
                        let ghost nv = (now, peers);
                        retrieve_cache_put(&mut self.pending_data_retrieve, copy_bytes(hash), (now, peers));
                        proof {
                            assert(keys_view(nv.1) =~= seq![from@]);
                            crate::lru_cache::lemma_put_result_map_values(
                                e0,
                                retrieve_cache_entries(self.pending_data_retrieve),
                                MAX_DATA_CACHE_COUNT as nat,
                                hash@,
                                nv,
                                |v: (u64, Vec<Vec<u8>>)| (v.0, keys_view(v.1)),
                            );
                        }
                        acts.push(self.doPullData(from, hash));
                    },
                }
                let ghost w0 = self@.pending_hash_for_data;
                add_to_waiting(&mut self.pending_hash_for_data, hash, from, relay_req.clone());
                proof {
                    let w = self@.pending_hash_for_data;
                    assert forall|h: Seq<u8>, i: int| #[trigger] w.contains_key(h) && 0 <= i < w[h].len() implies (
                    #[trigger] w[h][i]).0.len() >= 6 && w[h][i].1.route_info.dest.len() >= 6 by {
                        if h != hash@ {
                            assert(w0.contains_key(h) && w[h] == w0[h]);
                        } else if w0.contains_key(h) {
                            assert(w[h] == w0[h].push((from@, relay_req@)));
                            if i < w0[h].len() {
                                assert(w[h][i] == w0[h][i]);
                            }
                        } else {
                            assert(w[h] == seq![(from@, relay_req@)]);
                        }
                    }
                    assert(acts@.take(k) =~= a0);
                    assert(data_taken(s1, self@, from@, relay_req@, now, acts@.skip(k)));
                }
            },
            Some(d) => {
                let ghost dv = d@;
                let to_us = bytes_equal(dest, &self.local_id);
                let mut report = to_us;
                let mut i: usize = 0;
                while i < relay_req.tags.len() && !report
                    invariant
                        0 <= i <= relay_req.tags@.len(),
                        report == (to_us || exists|j: int| 0 <= j < i && self@.tags.contains(#[trigger] relay_req@.tags[j])),
                        self@ == s1,
                    decreases relay_req.tags@.len() - i,
                {
                    if contains_bytes(&self.tags, &relay_req.tags[i].0) {
                        report = true;
                        assert(self@.tags.contains(relay_req@.tags[i as int]));
                    }
                    i = i + 1;
                }
                assert(report == to_report(s1, relay_req@));
                let ghost rel: Seq<Transp2pAction> = Seq::empty();
                if !to_us {
                    let mut relayed = self.doDataRelay(from, relay_req, now);
                    proof {
                        rel = relayed@;
                    }
                    acts.append(&mut relayed);
                }
                let ghost before_report = acts@;
                assert(before_report.skip(k) =~= rel);
                if report {
                    acts.push(
                        Transp2pAction::Report(
                            CustomEventOut::DataRelay(relay_req.route_info.clone(), copy_bytes(hash), d),
                        ),
                    );
                }
                proof {
                    assert(acts@.take(k) =~= a0);
                    assert(dv == data_of(s1, relay_req@));
                    if report {
                        assert(acts@.skip(k).take(acts@.skip(k).len() - 1) =~= before_report.skip(k));
                        assert(acts@.skip(k).last() == acts@.last());
                        assert(reports_data(acts@.skip(k).last(), relay_req@.route_info, hash@, dv));
                    } else {
                        assert(acts@.skip(k).take(acts@.skip(k).len() as int) =~= acts@.skip(k));
                    }
                    assert(data_taken(s1, self@, from@, relay_req@, now, acts@.skip(k)));
                }
            },
        }
        assert(route_request_handled(s0, s1, from@, relay_req@.route_info, now, acts@.take(k), forward));
        acts
    }

    /// Answers the peers that asked for a route to `target`, each with `route`.
    #[allow(non_snake_case)]
    pub fn doRouteResponse(&self, target: &Vec<u8>, route: &Vec<RouteItem>) -> (r: Vec<Transp2pAction>)
        requires
            self.wf(),
        ensures
            r@.len() == if self@.route_req_recv.contains_key(target@) {
                self@.route_req_recv[target@].len()
            } else {
                0
            },
            forall|i: int|
                0 <= i < r@.len() ==> sends_route_resp(
                    #[trigger] r@[i],
                    self@.route_req_recv[target@][i],
                    target@,
                    items_view(*route),
                ),
    {
        let mut out: Vec<Transp2pAction> = Vec::new();
        match list_cache_peek(&self.route_req_recv, target) {
            Some(peers) => {
                let ghost pv = self@.route_req_recv[target@];
                assert(pv == keys_view(*peers));
                let mut i: usize = 0;
                while i < peers.len()
                    invariant
                        pv == keys_view(*peers),
                        0 <= i <= peers@.len(),
                        out@.len() == i,
                        forall|j: int| 0 <= j < i ==> sends_route_resp(#[trigger] out@[j], pv[j], target@, items_view(*route)),
                    decreases peers@.len() - i,
                {
                    let resp = FindRouteResp { dest: copy_bytes(target), route: clone_items(route), sign: Vec::new() };
                    out.push(Transp2pAction::Send(copy_bytes(&peers[i]), TransppEventOut::FindRouteRespEvt(resp)));
                    i = i + 1;
                }
            },
            None => {},
        }
        out
    }
}

/// What relaying data leaves as it was.
proof fn lemma_data_relayed_keeps(s: Transp2pView, t: Transp2pView, from: Seq<u8>, q: RelayView, now: u64, acts: Seq<Transp2pAction>)
    requires
        data_relayed(s, t, from, q, now, acts),
    ensures
        t.local_id == s.local_id,
        t.buckets == s.buckets,
        t.routes == s.routes,
        t.route_req_recv == s.route_req_recv,
        t.data_cache == s.data_cache,
        t.pending_data_retrieve == s.pending_data_retrieve,
        t.pending_hash_for_data == s.pending_hash_for_data,
        t.tags == s.tags,
{
}

/// What handling the requests that waited for a route leaves as it was.
proof fn lemma_queue_relayed_keeps(s: Transp2pView, t: Transp2pView, reqs: Seq<RelayView>, now: u64, acts: Seq<Transp2pAction>)
    requires
        queue_relayed(s, t, reqs, now, acts),
    ensures
        t.local_id == s.local_id,
        t.route_req_recv == s.route_req_recv,
        t.pending_hash_for_data == s.pending_hash_for_data,
        t.routes == s.routes,
    decreases reqs.len(),
{
    if reqs.len() > 0 {
        let (mid, k) = choose|mid: Transp2pView, k: int|
            #![trigger relay_if_held(mid, t, reqs.last(), now, acts.skip(k))]
            0 <= k <= acts.len() && queue_relayed(s, mid, reqs.drop_last(), now, acts.take(k)) && relay_if_held(
                mid,
                t,
                reqs.last(),
                now,
                acts.skip(k),
            );
        lemma_queue_relayed_keeps(s, mid, reqs.drop_last(), now, acts.take(k));
        if mid.data_cache.contains_key(reqs.last().hash) {
            lemma_data_relayed_keeps(mid, t, mid.local_id, reqs.last(), now, acts.skip(k));
        }
    }
}

/// What serving the requests that waited for data leaves as it was.
proof fn lemma_waiters_served_keeps(
    s: Transp2pView,
    t: Transp2pView,
    ws: Seq<(Seq<u8>, RelayView)>,
    hash: Seq<u8>,
    data: Seq<u8>,
    now: u64,
    acts: Seq<Transp2pAction>,
)
    requires
        waiters_served(s, t, ws, hash, data, now, acts),
    ensures
        t.local_id == s.local_id,
        t.pending_hash_for_data == s.pending_hash_for_data,
        t.data_cache == s.data_cache,
    decreases ws.len(),
{
    if ws.len() > 0 {
        let (mid, k) = choose|mid: Transp2pView, k: int|
            #![trigger waiter_served(mid, t, ws.last(), hash, data, now, acts.skip(k))]
            0 <= k <= acts.len() && waiters_served(s, mid, ws.drop_last(), hash, data, now, acts.take(k))
                && waiter_served(mid, t, ws.last(), hash, data, now, acts.skip(k));
        lemma_waiters_served_keeps(s, mid, ws.drop_last(), hash, data, now, acts.take(k));
        if ws.last().1.route_info.dest != mid.local_id {
            lemma_data_relayed_keeps(mid, t, ws.last().0, ws.last().1, now, acts.skip(k));
        }
    }
}

/// After `x` is added to the list of `k`, the list of `k` holds `x`.
pub proof fn lemma_list_added_holds(
    m: Map<Seq<u8>, Seq<Seq<u8>>>,
    new: Map<Seq<u8>, Seq<Seq<u8>>>,
    cap: nat,
    k: Seq<u8>,
    x: Seq<u8>,
)
    requires
        list_added(m, new, cap, k, x),
    ensures
        new.contains_key(k),
        new[k].contains(x),
{
    if m.contains_key(k) {
        if !m[k].contains(x) {
            assert(new[k][new[k].len() - 1] == x);
        }
    } else {
        crate::lru_cache::lemma_put_result_holds(m, new, cap, k, seq![x]);
        assert(new[k][0] == x);
    }
}

/// Data relayed to a destination is not taken in again for that destination: a later
/// relay request with the same destination and hash leaves the behaviour unchanged
/// and calls for no action.
pub proof fn lemma_data_relayed_once(
    s: Transp2pView,
    t: Transp2pView,
    from: Seq<u8>,
    q: RelayView,
    now: u64,
    acts: Seq<Transp2pAction>,
    t2: Transp2pView,
    from2: Seq<u8>,
    q2: RelayView,
    now2: u64,
    acts2: Seq<Transp2pAction>,
)
    requires
        data_relayed(s, t, from, q, now, acts),
        q2.route_info.dest == q.route_info.dest,
        q2.hash == q.hash,
        data_taken(t, t2, from2, q2, now2, acts2),
    ensures
        t2 == t,
        acts2.len() == 0,
{
    lemma_list_added_holds(s.data_relay_sent, t.data_relay_sent, 2 * MAX_ROUTE_PENDING_ITEM as nat, q.route_info.dest, q.hash);
}

/// The records of data relayed `m` hold `h` for `dest`, and recording a relay to `src`
/// cannot evict that record: `src` is `dest`, or `src` has a record already, or the
/// records are not full.
pub open spec fn relay_record_kept(m: Map<Seq<u8>, Seq<Seq<u8>>>, dest: Seq<u8>, h: Seq<u8>, src: Seq<u8>) -> bool {
    &&& m.dom().finite()
    &&& m.contains_key(dest)
    &&& m[dest].contains(h)
    &&& (src == dest || m.contains_key(src) || m.len() < 2 * MAX_ROUTE_PENDING_ITEM)
}

/// A relay request whose data was relayed to its destination already is taken in as
/// its route request alone: its data step sends nothing and changes nothing, even when
/// handling the route request relays the requests that waited for a route to its
/// source. It holds unless recording those relays could evict the record of the hash
/// (the records full, and none yet for the source).
pub proof fn lemma_relayed_hash_not_taken_again(
    s: Transp2pView,
    t: Transp2pView,
    from: Seq<u8>,
    q: RelayView,
    now: u64,
    acts: Seq<Transp2pAction>,
)
    requires
        data_relay_handled(s, t, from, q, now, acts),
        queues_ok(s.pending_data_for_route),
        relay_record_kept(s.data_relay_sent, q.route_info.dest, q.hash, q.route_info.src),
    ensures
        exists|forward: bool|
            #![trigger route_request_handled(s, t, from, q.route_info, now, acts, forward)]
            route_request_handled(s, t, from, q.route_info, now, acts, forward),
{
    let (s1, k, forward) = choose|s1: Transp2pView, k: int, forward: bool|
        #![trigger route_request_handled(s, s1, from, q.route_info, now, acts.take(k), forward)]
        0 <= k <= acts.len() && route_request_handled(s, s1, from, q.route_info, now, acts.take(k), forward)
            && data_taken(s1, t, from, q, now, acts.skip(k));
    let dest = q.route_info.dest;
    let src = q.route_info.src;
    let rq = q.route_info;
    if !s.route_req_sent.contains_key(from) {
        let a = acts.take(k);
        let n1 = a.len() - answer_count(s1, rq.src) - answer_count(s1, rq.dest);
        let s2 = choose|s2: Transp2pView|
            #![trigger route_learnt(s, s2, from, rq, now)]
            route_learnt(s, s2, from, rq, now) && route_updated(s2, s1, rq.src, now, a.take(n1));
        if s2.routes.contains_key(src) && s2.pending_data_for_route.contains_key(src) {
            let reqs = s2.pending_data_for_route[src];
            assert forall|i: int| 0 <= i < reqs.len() implies (#[trigger] reqs[i]).route_info.dest == src by {}
            lemma_queue_relayed_keeps_record(
                Transp2pView { pending_data_for_route: s2.pending_data_for_route.remove(src), ..s2 },
                s1,
                reqs,
                now,
                a.take(n1),
                dest,
                q.hash,
                src,
            );
        }
    }
    assert(relay_record_kept(s1.data_relay_sent, dest, q.hash, src));
    assert(acts.skip(k).len() == 0);
    assert(acts.take(k) =~= acts);
}

proof fn lemma_queue_relayed_keeps_record(
    s: Transp2pView,
    t: Transp2pView,
    reqs: Seq<RelayView>,
    now: u64,
    acts: Seq<Transp2pAction>,
    dest: Seq<u8>,
    h: Seq<u8>,
    src: Seq<u8>,
)
    requires
        relay_record_kept(s.data_relay_sent, dest, h, src),
        queue_relayed(s, t, reqs, now, acts),
        forall|i: int| 0 <= i < reqs.len() ==> (#[trigger] reqs[i]).route_info.dest == src,
    ensures
        relay_record_kept(t.data_relay_sent, dest, h, src),
    decreases reqs.len(),
{
    if reqs.len() > 0 {
        let (mid, k) = choose|mid: Transp2pView, k: int|
            #![trigger relay_if_held(mid, t, reqs.last(), now, acts.skip(k))]
            0 <= k <= acts.len() && queue_relayed(s, mid, reqs.drop_last(), now, acts.take(k)) && relay_if_held(
                mid,
                t,
                reqs.last(),
                now,
                acts.skip(k),
            );
        assert forall|i: int| 0 <= i < reqs.drop_last().len() implies (#[trigger] reqs.drop_last()[i]).route_info.dest
            == src by {
            assert(reqs.drop_last()[i] == reqs[i]);
        }
        lemma_queue_relayed_keeps_record(s, mid, reqs.drop_last(), now, acts.take(k), dest, h, src);
        let last = reqs.last();
        assert(last == reqs[reqs.len() - 1]);
        if mid.data_cache.contains_key(last.hash) {
            lemma_list_added_keeps_record(
                mid.data_relay_sent,
                t.data_relay_sent,
                src,
                last.hash,
                dest,
                h,
            );
        }
    }
}

proof fn lemma_list_added_keeps_record(
    m: Map<Seq<u8>, Seq<Seq<u8>>>,
    new: Map<Seq<u8>, Seq<Seq<u8>>>,
    k: Seq<u8>,
    x: Seq<u8>,
    dest: Seq<u8>,
    h: Seq<u8>,
)
    requires
        relay_record_kept(m, dest, h, k),
        list_added(m, new, 2 * MAX_ROUTE_PENDING_ITEM as nat, k, x),
    ensures
        relay_record_kept(new, dest, h, k),
{
    let i = choose|i: int| 0 <= i < m[dest].len() && m[dest][i] == h;
    if m.contains_key(k) {
        if k == dest && !m[k].contains(x) {
            assert(new[dest][i] == h);
        }
        assert(new.dom() =~= m.dom());
    } else {
        assert(new == m.insert(k, seq![x]));
        assert(new[dest] == m[dest]);
    }
}

/// A peer whose route request is taken in (it is not a peer we asked ourselves) is
/// remembered as asking for the request's destination, so that it is answered once a
/// route to the destination is known.
pub proof fn lemma_asker_remembered(
    s: Transp2pView,
    t: Transp2pView,
    from: Seq<u8>,
    q: FindRouteView,
    now: u64,
    acts: Seq<Transp2pAction>,
    forward: bool,
)
    requires
        route_request_handled(s, t, from, q, now, acts, forward),
        !s.route_req_sent.contains_key(from),
    ensures
        askers(t, q.dest).contains(from),
{
    let ns = answer_count(t, q.src);
    let nd = answer_count(t, q.dest);
    let n1 = acts.len() - ns - nd;
    let s2 = choose|s2: Transp2pView|
        #![trigger route_learnt(s, s2, from, q, now)]
        route_learnt(s, s2, from, q, now) && route_updated(s2, t, q.src, now, acts.take(n1));
    lemma_list_added_holds(s.route_req_recv, s2.route_req_recv, MAX_ROUTE_PENDING_ITEM as nat, q.dest, from);
    if s2.routes.contains_key(q.src) && s2.pending_data_for_route.contains_key(q.src) {
        lemma_queue_relayed_keeps(
            Transp2pView { pending_data_for_route: s2.pending_data_for_route.remove(q.src), ..s2 },
            t,
            s2.pending_data_for_route[q.src],
            now,
            acts.take(n1),
        );
    }
}

/// A route request from a peer we did not ask, for a source we have no route to, gives
/// that source a route through the peer it came from, carrying the path the request
/// travelled: its branches are the request's, and its hop count is one more than the
/// least hop count among them (1 for a request that travelled no path), at most
/// `INVALID_TTL`.
pub proof fn lemma_request_path_learnt(
    s: Transp2pView,
    t: Transp2pView,
    from: Seq<u8>,
    q: FindRouteView,
    now: u64,
    acts: Seq<Transp2pAction>,
    forward: bool,
)
    requires
        route_request_handled(s, t, from, q, now, acts, forward),
        !s.route_req_sent.contains_key(from),
        !s.routes.contains_key(q.src),
    ensures
        t.routes.contains_key(q.src),
        t.routes[q.src].dom() == set![from],
        t.routes[q.src][from].dom() == set![q.create_time],
        t.routes[q.src][from][q.create_time].pathes == (match q.pathes {
            Some(ps) => ps,
            None => Seq::<PathView>::empty(),
        }),
        t.routes[q.src][from][q.create_time].min_ttl == (match q.pathes {
            Some(ps) => if ps.len() == 0 {
                1
            } else if seq_min_ttl(ps) < INVALID_TTL {
                (seq_min_ttl(ps) + 1) as u8
            } else {
                INVALID_TTL
            },
            None => 1u8,
        }),
        t.routes[q.src][from][q.create_time].sign == q.sign,
{
    let ns = answer_count(t, q.src);
    let nd = answer_count(t, q.dest);
    let n1 = acts.len() - ns - nd;
    let s2 = choose|s2: Transp2pView|
        #![trigger route_learnt(s, s2, from, q, now)]
        route_learnt(s, s2, from, q, now) && route_updated(s2, t, q.src, now, acts.take(n1));
    let one = seq![request_route_item(q)];
    crate::route_tab::lemma_new_target_routes_read_back(s.routes, s2.routes, q.src, from, one, true);
    assert(one.drop_last() =~= Seq::<RouteItemsWithTimeView>::empty());
    assert(times_to_map(one.drop_last()) == Map::<u64, RouteItemView>::empty());
    assert(one.last() == request_route_item(q));
    assert(times_to_map(one) == Map::<u64, RouteItemView>::empty().insert(q.create_time, request_route_item(q).item));
    if s2.routes.contains_key(q.src) && s2.pending_data_for_route.contains_key(q.src) {
        lemma_queue_relayed_keeps(
            Transp2pView { pending_data_for_route: s2.pending_data_for_route.remove(q.src), ..s2 },
            t,
            s2.pending_data_for_route[q.src],
            now,
            acts.take(n1),
        );
    }
    assert(t.routes == s2.routes);
    assert(t.routes[q.src].dom() =~= set![from]);
    assert(t.routes[q.src][from].dom() =~= set![q.create_time]);
}

/// Data that arrives for a pull with a matching hash serves the requests waiting for it
/// once: none waits for the hash afterwards, and the data is kept.
pub proof fn lemma_waiters_served_once(
    s: Transp2pView,
    t: Transp2pView,
    hash: Seq<u8>,
    data: Seq<u8>,
    now: u64,
    acts: Seq<Transp2pAction>,
)
    requires
        pulled_data_handled(s, t, hash, data, now, acts),
        blake2_256_hash(data) == hash,
    ensures
        !t.pending_hash_for_data.contains_key(hash),
        t.data_cache.contains_key(hash),
        t.data_cache[hash] == data,
{
    crate::lru_cache::lemma_put_result_holds(s.data_cache, t.data_cache, MAX_DATA_CACHE_COUNT as nat, hash, data);
    if s.pending_hash_for_data.contains_key(hash) {
        let s1 = Transp2pView { data_cache: t.data_cache, ..s };
        lemma_waiters_served_keeps(
            Transp2pView { pending_hash_for_data: s.pending_hash_for_data.remove(hash), ..s1 },
            t,
            s.pending_hash_for_data[hash],
            hash,
            data,
            now,
            acts,
        );
    }
}

/// Data kept after a pull is served to the next pull of its hash.
pub proof fn lemma_kept_data_is_served(before: Transp2pView, after: Transp2pView, h: Seq<u8>, d: Seq<u8>)
    requires
        put_result(before.data_cache, after.data_cache, MAX_DATA_CACHE_COUNT as nat, h, d),
    ensures
        after.data_cache.contains_key(h),
        after.data_cache[h] == d,
{
    crate::lru_cache::lemma_put_result_holds(before.data_cache, after.data_cache, MAX_DATA_CACHE_COUNT as nat, h, d);
}

/// Expiring route requests twice at the same time is the same as expiring them once,
/// and no request left has expired.
pub proof fn lemma_expiry_idempotent(m: Map<Seq<u8>, u64>, now: u64)
    ensures
        unexpired(unexpired(m, now), now) == unexpired(m, now),
        forall|k: Seq<u8>| #[trigger] unexpired(m, now).contains_key(k) ==> !expired(m[k], now),
{
    assert(unexpired(unexpired(m, now), now) =~= unexpired(m, now));
}

} // verus!
