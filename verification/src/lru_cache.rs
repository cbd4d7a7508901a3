//! The bounded least-recently-used caches of the `lru` crate, as used by the route
//! table and by the push/pull engine.
//!
//! What a cache holds is modelled as a map from the key bytes to the stored value.
//! For the message cache and the sent-request cache the recency order is modelled
//! too, so that an eviction removes the least recently used key; for the other caches
//! it is not, and an eviction is stated as the removal of some other key.
use vstd::prelude::*;
use lru::LruCache;
use std::collections::hash_map::RandomState;
use crate::route_tab::NextHopRoutes;
use crate::transpp::MessageWithTopic;
use crate::transp2p::RelayDataReq;

verus! {

#[verifier::external_type_specification]
#[verifier::external_body]
#[verifier::reject_recursive_types(K)]
#[verifier::reject_recursive_types(V)]
#[verifier::reject_recursive_types(S)]
pub struct ExLruCache<K, V, S>(LruCache<K, V, S>);

/// The cache of routes, keyed by target.
pub type RouteCache = LruCache<Vec<u8>, Vec<NextHopRoutes>, RandomState>;

/// The cache of messages waiting to be pulled, keyed by message hash.
pub type MessageCache = LruCache<Vec<u8>, MessageWithTopic, RandomState>;

/// What a route cache holds.
pub uninterp spec fn route_cache_entries(c: RouteCache) -> Map<Seq<u8>, Vec<NextHopRoutes>>;

/// The capacity a route cache was made with.
pub uninterp spec fn route_cache_cap(c: RouteCache) -> nat;

/// The cache of hashes of messages received, keyed by message hash.
pub type ReceivedCache = LruCache<Vec<u8>, (), RandomState>;

/// What a received-hash cache holds.
pub uninterp spec fn received_cache_entries(c: ReceivedCache) -> Map<Seq<u8>, ()>;

/// The capacity a received-hash cache was made with.
pub uninterp spec fn received_cache_cap(c: ReceivedCache) -> nat;

/// The cache of route requests sent, keyed by peer, with the time they were sent.
pub type SentCache = LruCache<Vec<u8>, u64, RandomState>;

/// What a sent-request cache holds.
pub uninterp spec fn sent_cache_entries(c: SentCache) -> Map<Seq<u8>, u64>;

/// The capacity a sent-request cache was made with.
pub uninterp spec fn sent_cache_cap(c: SentCache) -> nat;

/// The keys a sent-request cache holds, from the least to the most recently used.
pub uninterp spec fn sent_cache_order(c: SentCache) -> Seq<Seq<u8>>;

/// The cache of data kept for pulling, keyed by data hash.
pub type DataCache = LruCache<Vec<u8>, Vec<u8>, RandomState>;

/// What a data cache holds.
pub uninterp spec fn data_cache_entries(c: DataCache) -> Map<Seq<u8>, Vec<u8>>;

/// The capacity a data cache was made with.
pub uninterp spec fn data_cache_cap(c: DataCache) -> nat;

/// What a message cache holds.
pub uninterp spec fn message_cache_entries(c: MessageCache) -> Map<Seq<u8>, MessageWithTopic>;

/// The capacity a message cache was made with.
pub uninterp spec fn message_cache_cap(c: MessageCache) -> nat;

/// The keys a message cache holds, from the least to the most recently used.
pub uninterp spec fn message_cache_order(c: MessageCache) -> Seq<Seq<u8>>;

/// A cache of lists of byte strings (peers or hashes), keyed by a byte string.
pub type ListCache = LruCache<Vec<u8>, Vec<Vec<u8>>, RandomState>;

/// What a list cache holds.
pub uninterp spec fn list_cache_entries(c: ListCache) -> Map<Seq<u8>, Vec<Vec<u8>>>;

/// The capacity a list cache was made with.
pub uninterp spec fn list_cache_cap(c: ListCache) -> nat;

/// The cache of data retrievals under way: for a hash, when it was first asked for
/// and the peers that can give it.
pub type RetrieveCache = LruCache<Vec<u8>, (u64, Vec<Vec<u8>>), RandomState>;

/// What a retrieval cache holds.
pub uninterp spec fn retrieve_cache_entries(c: RetrieveCache) -> Map<Seq<u8>, (u64, Vec<Vec<u8>>)>;

/// The capacity a retrieval cache was made with.
pub uninterp spec fn retrieve_cache_cap(c: RetrieveCache) -> nat;

/// The cache of relay requests waiting for their data, with the peer each came from,
/// keyed by data hash.
pub type WaitCache = LruCache<Vec<u8>, Vec<(Vec<u8>, RelayDataReq)>, RandomState>;

/// What a waiting-request cache holds.
pub uninterp spec fn wait_cache_entries(c: WaitCache) -> Map<Seq<u8>, Vec<(Vec<u8>, RelayDataReq)>>;

/// The capacity a waiting-request cache was made with.
pub uninterp spec fn wait_cache_cap(c: WaitCache) -> nat;

/// The cache of relay requests waiting for a route, keyed by destination.
pub type QueueCache = LruCache<Vec<u8>, Vec<RelayDataReq>, RandomState>;

/// What a route-queue cache holds.
pub uninterp spec fn queue_cache_entries(c: QueueCache) -> Map<Seq<u8>, Vec<RelayDataReq>>;

/// The capacity a route-queue cache was made with.
pub uninterp spec fn queue_cache_cap(c: QueueCache) -> nat;

/// A map that a cache of capacity `cap` can hold.
pub open spec fn bounded<V>(m: Map<Seq<u8>, V>, cap: nat) -> bool {
    m.dom().finite() && m.len() <= cap
}

/// `new` after a `put` of `k`, `v` into `old`: the entry is replaced in place when the
/// key is held, added when there is room, and otherwise added in place of another
/// (the least recently used) entry.
pub open spec fn put_result<V>(old: Map<Seq<u8>, V>, new: Map<Seq<u8>, V>, cap: nat, k: Seq<u8>, v: V) -> bool {
    if old.contains_key(k) || old.len() < cap {
        new == old.insert(k, v)
    } else {
        exists|e: Seq<u8>| old.contains_key(e) && e != k && new == old.remove(e).insert(k, v)
    }
}

/// `order` lists each key of `m` once, and nothing else.
pub open spec fn lru_consistent<V>(m: Map<Seq<u8>, V>, order: Seq<Seq<u8>>) -> bool {
    &&& order.no_duplicates()
    &&& order.to_set() == m.dom()
    &&& order.len() == m.len()
}

/// The recency order after `k` is used (read while held, or stored) in a cache of
/// capacity `cap`: `k` becomes the most recently used; a new key stored into a full
/// cache makes the least recently used key leave.
pub open spec fn lru_used(order: Seq<Seq<u8>>, k: Seq<u8>, cap: nat) -> Seq<Seq<u8>> {
    if order.contains(k) {
        order.remove(order.index_of(k)).push(k)
    } else if order.len() < cap {
        order.push(k)
    } else {
        order.drop_first().push(k)
    }
}

/// What a cache of capacity `cap` with recency order `order` holds after storing `v`
/// for `k`: a new key stored into a full cache takes the place of the least recently
/// used one.
pub open spec fn lru_stored<V>(m: Map<Seq<u8>, V>, order: Seq<Seq<u8>>, cap: nat, k: Seq<u8>, v: V) -> Map<Seq<u8>, V> {
    if m.contains_key(k) || order.len() < cap {
        m.insert(k, v)
    } else {
        m.remove(order[0]).insert(k, v)
    }
}

/// `order` without the keys of `ks`, the others keeping their order.
pub open spec fn without_keys(order: Seq<Seq<u8>>, ks: Set<Seq<u8>>) -> Seq<Seq<u8>>
    decreases order.len(),
{
    if order.len() == 0 {
        order
    } else {
        let rest = without_keys(order.drop_last(), ks);
        if ks.contains(order.last()) {
            rest
        } else {
            rest.push(order.last())
        }
    }
}

/// Taking out no key leaves the order as it is.
pub proof fn lemma_without_no_keys(order: Seq<Seq<u8>>)
    ensures
        without_keys(order, Set::empty()) == order,
    decreases order.len(),
{
    if order.len() > 0 {
        lemma_without_no_keys(order.drop_last());
        assert(order.drop_last().push(order.last()) =~= order);
    }
}

/// Taking out one more key after some keys is taking out all of them at once.
pub proof fn lemma_without_keys_insert(order: Seq<Seq<u8>>, ks: Set<Seq<u8>>, k: Seq<u8>)
    ensures
        without_keys(without_keys(order, ks), set![k]) == without_keys(order, ks.insert(k)),
    decreases order.len(),
{
    if order.len() > 0 {
        let p = order.drop_last();
        let x = order.last();
        lemma_without_keys_insert(p, ks, k);
        let r = without_keys(p, ks);
        if !ks.contains(x) {
            assert(r.push(x).drop_last() =~= r);
            assert(r.push(x).last() == x);
        }
    }
}

/// The recency order after the keys `ks` are used in turn (see [`lru_used`]).
pub open spec fn lru_uses(order: Seq<Seq<u8>>, ks: Seq<Seq<u8>>, cap: nat) -> Seq<Seq<u8>>
    decreases ks.len(),
{
    if ks.len() == 0 {
        order
    } else {
        lru_used(lru_uses(order, ks.drop_last(), cap), ks.last(), cap)
    }
}

proof fn lemma_lru_used_step(order: Seq<Seq<u8>>, k: Seq<u8>, i: int, k2: Seq<u8>, cap: nat) -> (j: int)
    requires
        order.no_duplicates(),
        order.len() <= cap,
        0 <= i < order.len(),
        order[i] == k,
        k2 != k,
        order.len() < cap || order.contains(k2) || i >= 1,
    ensures
        lru_used(order, k2, cap).no_duplicates(),
        lru_used(order, k2, cap).len() <= cap,
        0 <= j < lru_used(order, k2, cap).len(),
        lru_used(order, k2, cap)[j] == k,
        lru_used(order, k2, cap).len() - 1 - j <= order.len() - 1 - i + 1,
{
    let n = lru_used(order, k2, cap);
    if order.contains(k2) {
        let p = order.index_of(k2);
        let r = order.remove(p);
        assert(n == r.push(k2));
        assert forall|a: int, b: int| 0 <= a < n.len() && 0 <= b < n.len() && a != b implies n[a] != n[b] by {
            let oa = if a < p { a } else { a + 1 };
            let ob = if b < p { b } else { b + 1 };
            if a < r.len() && b < r.len() {
                assert(n[a] == order[oa] && n[b] == order[ob]);
            } else if a < r.len() {
                assert(n[a] == order[oa] && n[b] == order[p]);
            } else {
                assert(n[b] == order[ob] && n[a] == order[p]);
            }
        }
        if i < p {
            assert(n[i] == k);
            i
        } else {
            assert(p != i);
            assert(n[i - 1] == k);
            i - 1
        }
    } else if order.len() < cap {
        assert forall|a: int, b: int| 0 <= a < n.len() && 0 <= b < n.len() && a != b implies n[a] != n[b] by {
            if a < order.len() && b < order.len() {
                assert(n[a] == order[a] && n[b] == order[b]);
            } else if a < order.len() {
                assert(n[a] == order[a]);
            } else {
                assert(n[b] == order[b]);
            }
        }
        assert(n[i] == k);
        i
    } else {
        let d = order.drop_first();
        assert forall|a: int, b: int| 0 <= a < n.len() && 0 <= b < n.len() && a != b implies n[a] != n[b] by {
            if a < d.len() && b < d.len() {
                assert(n[a] == order[a + 1] && n[b] == order[b + 1]);
            } else if a < d.len() {
                assert(n[a] == order[a + 1]);
            } else {
                assert(n[b] == order[b + 1]);
            }
        }
        assert(n[i - 1] == k);
        i - 1
    }
}

/// Using a key that is not among the last `i` keys of the order makes it the most
/// recently used one, the last `i` keys staying just before it in their order.
pub(crate) proof fn lemma_lru_used_suffix(order: Seq<Seq<u8>>, k: Seq<u8>, cap: nat, i: int)
    requires
        order.no_duplicates(),
        order.len() <= cap,
        0 <= i <= order.len(),
        i < cap,
        forall|j: int| order.len() - i <= j < order.len() ==> order[j] != k,
    ensures
        lru_used(order, k, cap).no_duplicates(),
        lru_used(order, k, cap).len() <= cap,
        lru_used(order, k, cap).len() >= i + 1,
        lru_used(order, k, cap).last() == k,
        forall|j: int|
            0 <= j < i ==> #[trigger] lru_used(order, k, cap)[lru_used(order, k, cap).len() - 1 - i + j] == order[order.len()
                - i + j],
{
    let n = lru_used(order, k, cap);
    if order.contains(k) {
        let p = order.index_of(k);
        let r = order.remove(p);
        assert(order[p] == k);
        assert(p < order.len() - i);
        assert(n == r.push(k));
        assert forall|a: int, b: int| 0 <= a < n.len() && 0 <= b < n.len() && a != b implies n[a] != n[b] by {
            let oa = if a < p { a } else { a + 1 };
            let ob = if b < p { b } else { b + 1 };
            if a < r.len() && b < r.len() {
                assert(n[a] == order[oa] && n[b] == order[ob]);
            } else if a < r.len() {
                assert(n[a] == order[oa] && n[b] == order[p]);
            } else {
                assert(n[b] == order[ob] && n[a] == order[p]);
            }
        }
        assert forall|j: int| 0 <= j < i implies #[trigger] n[n.len() - 1 - i + j] == order[order.len() - i + j] by {
            assert(n[n.len() - 1 - i + j] == r[n.len() - 1 - i + j]);
        }
    } else if order.len() < cap {
        assert forall|a: int, b: int| 0 <= a < n.len() && 0 <= b < n.len() && a != b implies n[a] != n[b] by {
            if a < order.len() && b < order.len() {
                assert(n[a] == order[a] && n[b] == order[b]);
            } else if a < order.len() {
                assert(n[a] == order[a]);
            } else {
                assert(n[b] == order[b]);
            }
        }
        assert forall|j: int| 0 <= j < i implies #[trigger] n[n.len() - 1 - i + j] == order[order.len() - i + j] by {
            assert(n[n.len() - 1 - i + j] == order[order.len() - i + j]);
        }
    } else {
        let d = order.drop_first();
        assert forall|a: int, b: int| 0 <= a < n.len() && 0 <= b < n.len() && a != b implies n[a] != n[b] by {
            if a < d.len() && b < d.len() {
                assert(n[a] == order[a + 1] && n[b] == order[b + 1]);
            } else if a < d.len() {
                assert(n[a] == order[a + 1]);
            } else {
                assert(n[b] == order[b + 1]);
            }
        }
        assert forall|j: int| 0 <= j < i implies #[trigger] n[n.len() - 1 - i + j] == order[order.len() - i + j] by {
            assert(n[n.len() - 1 - i + j] == d[n.len() - 1 - i + j]);
        }
    }
}

/// A key stored as the most recently used one outlives fewer than `cap` uses of
/// other keys: a kept entry leaves only after `cap` - 1 other keys have been used
/// since it was stored or last read.
pub proof fn lemma_lru_keeps_recent(order: Seq<Seq<u8>>, k: Seq<u8>, ks: Seq<Seq<u8>>, cap: nat)
    requires
        order.no_duplicates(),
        order.len() <= cap,
        order.len() > 0,
        order.last() == k,
        ks.len() < cap,
        forall|q: int| 0 <= q < ks.len() ==> #[trigger] ks[q] != k,
    ensures
        lru_uses(order, ks, cap).contains(k),
{
    let j = lemma_lru_keeps_rank(order, k, ks, cap);
    assert(lru_uses(order, ks, cap)[j] == k);
}

proof fn lemma_lru_keeps_rank(order: Seq<Seq<u8>>, k: Seq<u8>, ks: Seq<Seq<u8>>, cap: nat) -> (j: int)
    requires
        order.no_duplicates(),
        order.len() <= cap,
        order.len() > 0,
        order.last() == k,
        ks.len() < cap,
        forall|q: int| 0 <= q < ks.len() ==> #[trigger] ks[q] != k,
    ensures
        lru_uses(order, ks, cap).no_duplicates(),
        lru_uses(order, ks, cap).len() <= cap,
        0 <= j < lru_uses(order, ks, cap).len(),
        lru_uses(order, ks, cap)[j] == k,
        lru_uses(order, ks, cap).len() - 1 - j <= ks.len(),
    decreases ks.len(),
{
    if ks.len() == 0 {
        order.len() - 1
    } else {
        let t = ks.drop_last();
        assert forall|q: int| 0 <= q < t.len() implies #[trigger] t[q] != k by {
            assert(t[q] == ks[q]);
        }
        let i = lemma_lru_keeps_rank(order, k, t, cap);
        let o = lru_uses(order, t, cap);
        assert(ks.last() == ks[ks.len() - 1]);
        lemma_lru_used_step(o, k, i, ks.last(), cap)
    }
}

/// What a cache holds after a `put` of `k`, `v`: `k` is held with value `v`, and
/// every other key held afterwards was held before with the same value.
pub proof fn lemma_put_result_holds<V>(old: Map<Seq<u8>, V>, new: Map<Seq<u8>, V>, cap: nat, k: Seq<u8>, v: V)
    requires
        put_result(old, new, cap, k, v),
    ensures
        new.contains_key(k),
        new[k] == v,
        forall|e: Seq<u8>| #[trigger] new.contains_key(e) && e != k ==> old.contains_key(e) && new[e] == old[e],
{
}

/// A `put` seen through a view of the values.
pub proof fn lemma_put_result_map_values<V, W>(
    old: Map<Seq<u8>, V>,
    new: Map<Seq<u8>, V>,
    cap: nat,
    k: Seq<u8>,
    v: V,
    f: spec_fn(V) -> W,
)
    requires
        old.dom().finite(),
        put_result(old, new, cap, k, v),
    ensures
        put_result(old.map_values(f), new.map_values(f), cap, k, f(v)),
{
    assert(old.map_values(f).dom() =~= old.dom());
    if old.contains_key(k) || old.len() < cap {
        assert(new.map_values(f) =~= old.map_values(f).insert(k, f(v)));
    } else {
        let e = choose|e: Seq<u8>| old.contains_key(e) && e != k && new == old.remove(e).insert(k, v);
        assert(new.map_values(f) =~= old.map_values(f).remove(e).insert(k, f(v)));
    }
}

/// `LruCache::with_hasher`: an empty cache holding at most `cap` entries.
#[verifier::external_body]
pub(crate) fn route_cache_new(cap: usize) -> (cache: RouteCache)
    requires
        cap > 0,
    ensures
        route_cache_entries(cache).is_empty(),
        route_cache_cap(cache) == cap,
{
    LruCache::with_hasher(std::num::NonZeroUsize::new(cap).unwrap(), RandomState::new())
}

/// `LruCache::peek`: the value held for `k`, without touching the recency order.
#[verifier::external_body]
pub(crate) fn route_cache_peek<'a>(c: &'a RouteCache, k: &Vec<u8>) -> (r: Option<&'a Vec<NextHopRoutes>>)
    ensures
        match r {
            Some(v) => route_cache_entries(*c).contains_key(k@) && *v == route_cache_entries(*c)[k@],
            None => !route_cache_entries(*c).contains_key(k@),
        },
{
    c.peek(k)
}

/// `LruCache::pop`: takes out the entry for `k`, returning its value.
#[verifier::external_body]
pub(crate) fn route_cache_pop(c: &mut RouteCache, k: &Vec<u8>) -> (r: Option<Vec<NextHopRoutes>>)
    requires
        bounded(route_cache_entries(*old(c)), route_cache_cap(*old(c))),
    ensures
        route_cache_entries(*final(c)) == route_cache_entries(*old(c)).remove(k@),
        route_cache_cap(*final(c)) == route_cache_cap(*old(c)),
        bounded(route_cache_entries(*final(c)), route_cache_cap(*final(c))),
        match r {
            Some(v) => route_cache_entries(*old(c)).contains_key(k@) && v == route_cache_entries(*old(c))[k@],
            None => !route_cache_entries(*old(c)).contains_key(k@),
        },
{
    c.pop(k)
}

/// `LruCache::put`: stores `v` for `k` as the most recently used entry, evicting the
/// least recently used entry when the cache is full and `k` is new; returns the value
/// replaced for `k`, if any.
#[verifier::external_body]
pub(crate) fn route_cache_put(c: &mut RouteCache, k: Vec<u8>, v: Vec<NextHopRoutes>) -> (r: Option<Vec<NextHopRoutes>>)
    requires
        bounded(route_cache_entries(*old(c)), route_cache_cap(*old(c))),
    ensures
        route_cache_cap(*final(c)) == route_cache_cap(*old(c)),
        bounded(route_cache_entries(*final(c)), route_cache_cap(*final(c))),
        put_result(route_cache_entries(*old(c)), route_cache_entries(*final(c)), route_cache_cap(*old(c)), k@, v),
        match r {
            Some(ov) => route_cache_entries(*old(c)).contains_key(k@) && ov == route_cache_entries(*old(c))[k@],
            None => !route_cache_entries(*old(c)).contains_key(k@),
        },
{
    c.put(k, v)
}

/// `LruCache::with_hasher`: an empty cache holding at most `cap` entries.
#[verifier::external_body]
pub(crate) fn message_cache_new(cap: usize) -> (cache: MessageCache)
    requires
        cap > 0,
    ensures
        message_cache_entries(cache).is_empty(),
        message_cache_cap(cache) == cap,
        message_cache_order(cache).len() == 0,
{
    LruCache::with_hasher(std::num::NonZeroUsize::new(cap).unwrap(), RandomState::new())
}

/// `LruCache::get`: the value held for `k`, which becomes the most recently used
/// entry; what the cache holds does not change.
#[verifier::external_body]
pub(crate) fn message_cache_get(c: &mut MessageCache, k: &Vec<u8>) -> (r: Option<MessageWithTopic>)
    ensures
        message_cache_entries(*final(c)) == message_cache_entries(*old(c)),
        message_cache_cap(*final(c)) == message_cache_cap(*old(c)),
        message_cache_order(*final(c)) == if message_cache_entries(*old(c)).contains_key(k@) {
            lru_used(message_cache_order(*old(c)), k@, message_cache_cap(*old(c)))
        } else {
            message_cache_order(*old(c))
        },
        lru_consistent(message_cache_entries(*final(c)), message_cache_order(*final(c))),
        match r {
            Some(v) => message_cache_entries(*old(c)).contains_key(k@) && v@ == message_cache_entries(*old(c))[k@]@,
            None => !message_cache_entries(*old(c)).contains_key(k@),
        },
{
    c.get(k).cloned()
}


/// `LruCache::with_hasher`: an empty cache holding at most `cap` entries.
#[verifier::external_body]
pub(crate) fn received_cache_new(cap: usize) -> (cache: ReceivedCache)
    requires
        cap > 0,
    ensures
        received_cache_entries(cache).is_empty(),
        received_cache_cap(cache) == cap,
{
    LruCache::with_hasher(std::num::NonZeroUsize::new(cap).unwrap(), RandomState::new())
}

/// `LruCache::get`: whether `k` is held, making it the most recently used entry;
/// what the cache holds does not change.
#[verifier::external_body]
pub(crate) fn received_cache_get(c: &mut ReceivedCache, k: &Vec<u8>) -> (r: bool)
    ensures
        received_cache_entries(*final(c)) == received_cache_entries(*old(c)),
        received_cache_cap(*final(c)) == received_cache_cap(*old(c)),
        r == received_cache_entries(*old(c)).contains_key(k@),
{
    c.get(k).is_some()
}

/// `LruCache::put`: records `k` as the most recently used entry, evicting the least
/// recently used entry when the cache is full and `k` is new.
#[verifier::external_body]
pub(crate) fn received_cache_put(c: &mut ReceivedCache, k: Vec<u8>) -> (r: Option<()>)
    requires
        bounded(received_cache_entries(*old(c)), received_cache_cap(*old(c))),
    ensures
        received_cache_cap(*final(c)) == received_cache_cap(*old(c)),
        bounded(received_cache_entries(*final(c)), received_cache_cap(*final(c))),
        put_result(received_cache_entries(*old(c)), received_cache_entries(*final(c)), received_cache_cap(*old(c)), k@, ()),
        r is Some <==> received_cache_entries(*old(c)).contains_key(k@),
{
    c.put(k, ())
}

/// `LruCache::with_hasher`: an empty cache holding at most `cap` entries.
#[verifier::external_body]
pub(crate) fn sent_cache_new(cap: usize) -> (cache: SentCache)
    requires
        cap > 0,
    ensures
        sent_cache_entries(cache).is_empty(),
        sent_cache_cap(cache) == cap,
        sent_cache_order(cache).len() == 0,
{
    LruCache::with_hasher(std::num::NonZeroUsize::new(cap).unwrap(), RandomState::new())
}

/// `LruCache::put`: stores `v` for `k` as the most recently used entry, evicting the
/// least recently used entry when the cache is full and `k` is new. The recency order
/// is that of the cache's list.
#[verifier::external_body]
pub(crate) fn sent_cache_put(c: &mut SentCache, k: Vec<u8>, v: u64) -> (r: Option<u64>)
    requires
        bounded(sent_cache_entries(*old(c)), sent_cache_cap(*old(c))),
    ensures
        sent_cache_cap(*final(c)) == sent_cache_cap(*old(c)),
        bounded(sent_cache_entries(*final(c)), sent_cache_cap(*final(c))),
        put_result(sent_cache_entries(*old(c)), sent_cache_entries(*final(c)), sent_cache_cap(*old(c)), k@, v),
        sent_cache_entries(*final(c)) == lru_stored(
            sent_cache_entries(*old(c)),
            sent_cache_order(*old(c)),
            sent_cache_cap(*old(c)),
            k@,
            v,
        ),
        sent_cache_order(*final(c)) == lru_used(sent_cache_order(*old(c)), k@, sent_cache_cap(*old(c))),
        lru_consistent(sent_cache_entries(*final(c)), sent_cache_order(*final(c))),
        match r {
            Some(ov) => sent_cache_entries(*old(c)).contains_key(k@) && ov == sent_cache_entries(*old(c))[k@],
            None => !sent_cache_entries(*old(c)).contains_key(k@),
        },
{
    c.put(k, v)
}

/// `LruCache::peek`: the value held for `k`, without touching the recency order.
#[verifier::external_body]
pub(crate) fn sent_cache_peek(c: &SentCache, k: &Vec<u8>) -> (r: Option<u64>)
    ensures
        match r {
            Some(v) => sent_cache_entries(*c).contains_key(k@) && v == sent_cache_entries(*c)[k@],
            None => !sent_cache_entries(*c).contains_key(k@),
        },
{
    c.peek(k).copied()
}

/// `LruCache::pop`: takes out the entry for `k`; the other keys keep their recency
/// order.
#[verifier::external_body]
pub(crate) fn sent_cache_pop(c: &mut SentCache, k: &Vec<u8>) -> (r: Option<u64>)
    requires
        bounded(sent_cache_entries(*old(c)), sent_cache_cap(*old(c))),
    ensures
        sent_cache_entries(*final(c)) == sent_cache_entries(*old(c)).remove(k@),
        sent_cache_order(*final(c)) == without_keys(sent_cache_order(*old(c)), set![k@]),
        lru_consistent(sent_cache_entries(*final(c)), sent_cache_order(*final(c))),
        sent_cache_cap(*final(c)) == sent_cache_cap(*old(c)),
        bounded(sent_cache_entries(*final(c)), sent_cache_cap(*final(c))),
        match r {
            Some(v) => sent_cache_entries(*old(c)).contains_key(k@) && v == sent_cache_entries(*old(c))[k@],
            None => !sent_cache_entries(*old(c)).contains_key(k@),
        },
{
    c.pop(k)
}

/// `LruCache::iter`: the keys held, each once, from the most to the least recently
/// used.
#[verifier::external_body]
pub(crate) fn sent_cache_keys(c: &SentCache) -> (r: Vec<Vec<u8>>)
    ensures
        crate::bytes::keys_view(r).no_duplicates(),
        crate::bytes::keys_view(r).to_set() == sent_cache_entries(*c).dom(),
{
    c.iter().map(|(k, _)| crate::bytes::copy_bytes(k)).collect()
}

/// `LruCache::with_hasher`: an empty cache holding at most `cap` entries.
#[verifier::external_body]
pub(crate) fn data_cache_new(cap: usize) -> (cache: DataCache)
    requires
        cap > 0,
    ensures
        data_cache_entries(cache).is_empty(),
        data_cache_cap(cache) == cap,
{
    LruCache::with_hasher(std::num::NonZeroUsize::new(cap).unwrap(), RandomState::new())
}

/// `LruCache::put`: stores `v` for `k` as the most recently used entry, evicting the
/// least recently used entry when the cache is full and `k` is new.
#[verifier::external_body]
pub(crate) fn data_cache_put(c: &mut DataCache, k: Vec<u8>, v: Vec<u8>) -> (r: Option<Vec<u8>>)
    requires
        bounded(data_cache_entries(*old(c)), data_cache_cap(*old(c))),
    ensures
        data_cache_cap(*final(c)) == data_cache_cap(*old(c)),
        bounded(data_cache_entries(*final(c)), data_cache_cap(*final(c))),
        put_result(data_cache_entries(*old(c)), data_cache_entries(*final(c)), data_cache_cap(*old(c)), k@, v),
        match r {
            Some(ov) => data_cache_entries(*old(c)).contains_key(k@) && ov == data_cache_entries(*old(c))[k@],
            None => !data_cache_entries(*old(c)).contains_key(k@),
        },
{
    c.put(k, v)
}

/// `LruCache::get`: a copy of the value held for `k`, which becomes the most recently
/// used entry; what the cache holds does not change.
#[verifier::external_body]
pub(crate) fn data_cache_get(c: &mut DataCache, k: &Vec<u8>) -> (r: Option<Vec<u8>>)
    ensures
        data_cache_entries(*final(c)) == data_cache_entries(*old(c)),
        data_cache_cap(*final(c)) == data_cache_cap(*old(c)),
        match r {
            Some(v) => data_cache_entries(*old(c)).contains_key(k@) && v@ == data_cache_entries(*old(c))[k@]@,
            None => !data_cache_entries(*old(c)).contains_key(k@),
        },
{
    c.get(k).cloned()
}

/// `LruCache::with_hasher`: an empty cache holding at most `cap` entries.
#[verifier::external_body]
pub(crate) fn list_cache_new(cap: usize) -> (cache: ListCache)
    requires
        cap > 0,
    ensures
        list_cache_entries(cache).is_empty(),
        list_cache_cap(cache) == cap,
{
    LruCache::with_hasher(std::num::NonZeroUsize::new(cap).unwrap(), RandomState::new())
}

/// `LruCache::peek`: the value held for `k`, without touching the recency order.
#[verifier::external_body]
pub(crate) fn list_cache_peek<'a>(c: &'a ListCache, k: &Vec<u8>) -> (r: Option<&'a Vec<Vec<u8>>>)
    ensures
        match r {
            Some(v) => list_cache_entries(*c).contains_key(k@) && *v == list_cache_entries(*c)[k@],
            None => !list_cache_entries(*c).contains_key(k@),
        },
{
    c.peek(k)
}

/// `LruCache::pop`: takes out the entry for `k`, returning its value.
#[verifier::external_body]
pub(crate) fn list_cache_pop(c: &mut ListCache, k: &Vec<u8>) -> (r: Option<Vec<Vec<u8>>>)
    requires
        bounded(list_cache_entries(*old(c)), list_cache_cap(*old(c))),
    ensures
        list_cache_entries(*final(c)) == list_cache_entries(*old(c)).remove(k@),
        list_cache_cap(*final(c)) == list_cache_cap(*old(c)),
        bounded(list_cache_entries(*final(c)), list_cache_cap(*final(c))),
        match r {
            Some(v) => list_cache_entries(*old(c)).contains_key(k@) && v == list_cache_entries(*old(c))[k@],
            None => !list_cache_entries(*old(c)).contains_key(k@),
        },
{
    c.pop(k)
}

/// `LruCache::put`: stores `v` for `k` as the most recently used entry, evicting the
/// least recently used entry when the cache is full and `k` is new.
#[verifier::external_body]
pub(crate) fn list_cache_put(c: &mut ListCache, k: Vec<u8>, v: Vec<Vec<u8>>) -> (r: Option<Vec<Vec<u8>>>)
    requires
        bounded(list_cache_entries(*old(c)), list_cache_cap(*old(c))),
    ensures
        list_cache_cap(*final(c)) == list_cache_cap(*old(c)),
        bounded(list_cache_entries(*final(c)), list_cache_cap(*final(c))),
        put_result(list_cache_entries(*old(c)), list_cache_entries(*final(c)), list_cache_cap(*old(c)), k@, v),
        match r {
            Some(ov) => list_cache_entries(*old(c)).contains_key(k@) && ov == list_cache_entries(*old(c))[k@],
            None => !list_cache_entries(*old(c)).contains_key(k@),
        },
{
    c.put(k, v)
}

/// `LruCache::with_hasher`: an empty cache holding at most `cap` entries.
#[verifier::external_body]
pub(crate) fn retrieve_cache_new(cap: usize) -> (cache: RetrieveCache)
    requires
        cap > 0,
    ensures
        retrieve_cache_entries(cache).is_empty(),
        retrieve_cache_cap(cache) == cap,
{
    LruCache::with_hasher(std::num::NonZeroUsize::new(cap).unwrap(), RandomState::new())
}

/// `LruCache::peek`: the value held for `k`, without touching the recency order.
#[verifier::external_body]
pub(crate) fn retrieve_cache_peek<'a>(c: &'a RetrieveCache, k: &Vec<u8>) -> (r: Option<&'a (u64, Vec<Vec<u8>>)>)
    ensures
        match r {
            Some(v) => retrieve_cache_entries(*c).contains_key(k@) && *v == retrieve_cache_entries(*c)[k@],
            None => !retrieve_cache_entries(*c).contains_key(k@),
        },
{
    c.peek(k)
}

/// `LruCache::pop`: takes out the entry for `k`, returning its value.
#[verifier::external_body]
pub(crate) fn retrieve_cache_pop(c: &mut RetrieveCache, k: &Vec<u8>) -> (r: Option<(u64, Vec<Vec<u8>>)>)
    requires
        bounded(retrieve_cache_entries(*old(c)), retrieve_cache_cap(*old(c))),
    ensures
        retrieve_cache_entries(*final(c)) == retrieve_cache_entries(*old(c)).remove(k@),
        retrieve_cache_cap(*final(c)) == retrieve_cache_cap(*old(c)),
        bounded(retrieve_cache_entries(*final(c)), retrieve_cache_cap(*final(c))),
        match r {
            Some(v) => retrieve_cache_entries(*old(c)).contains_key(k@) && v == retrieve_cache_entries(*old(c))[k@],
            None => !retrieve_cache_entries(*old(c)).contains_key(k@),
        },
{
    c.pop(k)
}

/// `LruCache::put`: stores `v` for `k` as the most recently used entry, evicting the
/// least recently used entry when the cache is full and `k` is new.
#[verifier::external_body]
pub(crate) fn retrieve_cache_put(c: &mut RetrieveCache, k: Vec<u8>, v: (u64, Vec<Vec<u8>>)) -> (r: Option<(u64, Vec<Vec<u8>>)>)
    requires
        bounded(retrieve_cache_entries(*old(c)), retrieve_cache_cap(*old(c))),
    ensures
        retrieve_cache_cap(*final(c)) == retrieve_cache_cap(*old(c)),
        bounded(retrieve_cache_entries(*final(c)), retrieve_cache_cap(*final(c))),
        put_result(retrieve_cache_entries(*old(c)), retrieve_cache_entries(*final(c)), retrieve_cache_cap(*old(c)), k@, v),
        match r {
            Some(ov) => retrieve_cache_entries(*old(c)).contains_key(k@) && ov == retrieve_cache_entries(*old(c))[k@],
            None => !retrieve_cache_entries(*old(c)).contains_key(k@),
        },
{
    c.put(k, v)
}

/// `LruCache::iter`: the keys held, each once, from the most to the least recently
/// used.
#[verifier::external_body]
pub(crate) fn retrieve_cache_keys(c: &RetrieveCache) -> (r: Vec<Vec<u8>>)
    ensures
        crate::bytes::keys_view(r).no_duplicates(),
        crate::bytes::keys_view(r).to_set() == retrieve_cache_entries(*c).dom(),
{
    c.iter().map(|(k, _)| crate::bytes::copy_bytes(k)).collect()
}

/// `LruCache::with_hasher`: an empty cache holding at most `cap` entries.
#[verifier::external_body]
pub(crate) fn wait_cache_new(cap: usize) -> (cache: WaitCache)
    requires
        cap > 0,
    ensures
        wait_cache_entries(cache).is_empty(),
        wait_cache_cap(cache) == cap,
{
    LruCache::with_hasher(std::num::NonZeroUsize::new(cap).unwrap(), RandomState::new())
}

/// `LruCache::pop`: takes out the entry for `k`, returning its value.
#[verifier::external_body]
pub(crate) fn wait_cache_pop(c: &mut WaitCache, k: &Vec<u8>) -> (r: Option<Vec<(Vec<u8>, RelayDataReq)>>)
    requires
        bounded(wait_cache_entries(*old(c)), wait_cache_cap(*old(c))),
    ensures
        wait_cache_entries(*final(c)) == wait_cache_entries(*old(c)).remove(k@),
        wait_cache_cap(*final(c)) == wait_cache_cap(*old(c)),
        bounded(wait_cache_entries(*final(c)), wait_cache_cap(*final(c))),
        match r {
            Some(v) => wait_cache_entries(*old(c)).contains_key(k@) && v == wait_cache_entries(*old(c))[k@],
            None => !wait_cache_entries(*old(c)).contains_key(k@),
        },
{
    c.pop(k)
}

/// `LruCache::put`: stores `v` for `k` as the most recently used entry, evicting the
/// least recently used entry when the cache is full and `k` is new.
#[verifier::external_body]
pub(crate) fn wait_cache_put(c: &mut WaitCache, k: Vec<u8>, v: Vec<(Vec<u8>, RelayDataReq)>) -> (r: Option<Vec<(Vec<u8>, RelayDataReq)>>)
    requires
        bounded(wait_cache_entries(*old(c)), wait_cache_cap(*old(c))),
    ensures
        wait_cache_cap(*final(c)) == wait_cache_cap(*old(c)),
        bounded(wait_cache_entries(*final(c)), wait_cache_cap(*final(c))),
        put_result(wait_cache_entries(*old(c)), wait_cache_entries(*final(c)), wait_cache_cap(*old(c)), k@, v),
        match r {
            Some(ov) => wait_cache_entries(*old(c)).contains_key(k@) && ov == wait_cache_entries(*old(c))[k@],
            None => !wait_cache_entries(*old(c)).contains_key(k@),
        },
{
    c.put(k, v)
}

/// `LruCache::with_hasher`: an empty cache holding at most `cap` entries.
#[verifier::external_body]
pub(crate) fn queue_cache_new(cap: usize) -> (cache: QueueCache)
    requires
        cap > 0,
    ensures
        queue_cache_entries(cache).is_empty(),
        queue_cache_cap(cache) == cap,
{
    LruCache::with_hasher(std::num::NonZeroUsize::new(cap).unwrap(), RandomState::new())
}

/// `LruCache::pop`: takes out the entry for `k`, returning its value.
#[verifier::external_body]
pub(crate) fn queue_cache_pop(c: &mut QueueCache, k: &Vec<u8>) -> (r: Option<Vec<RelayDataReq>>)
    requires
        bounded(queue_cache_entries(*old(c)), queue_cache_cap(*old(c))),
    ensures
        queue_cache_entries(*final(c)) == queue_cache_entries(*old(c)).remove(k@),
        queue_cache_cap(*final(c)) == queue_cache_cap(*old(c)),
        bounded(queue_cache_entries(*final(c)), queue_cache_cap(*final(c))),
        match r {
            Some(v) => queue_cache_entries(*old(c)).contains_key(k@) && v == queue_cache_entries(*old(c))[k@],
            None => !queue_cache_entries(*old(c)).contains_key(k@),
        },
{
    c.pop(k)
}

/// `LruCache::put`: stores `v` for `k` as the most recently used entry, evicting the
/// least recently used entry when the cache is full and `k` is new.
#[verifier::external_body]
pub(crate) fn queue_cache_put(c: &mut QueueCache, k: Vec<u8>, v: Vec<RelayDataReq>) -> (r: Option<Vec<RelayDataReq>>)
    requires
        bounded(queue_cache_entries(*old(c)), queue_cache_cap(*old(c))),
    ensures
        queue_cache_cap(*final(c)) == queue_cache_cap(*old(c)),
        bounded(queue_cache_entries(*final(c)), queue_cache_cap(*final(c))),
        put_result(queue_cache_entries(*old(c)), queue_cache_entries(*final(c)), queue_cache_cap(*old(c)), k@, v),
        match r {
            Some(ov) => queue_cache_entries(*old(c)).contains_key(k@) && ov == queue_cache_entries(*old(c))[k@],
            None => !queue_cache_entries(*old(c)).contains_key(k@),
        },
{
    c.put(k, v)
}

} // verus!
