//! Distance buckets over peer identifiers, with a saturation level that tells how
//! far the table is filled.
//!
//! A peer identifier is held as its byte encoding; the bucket of a peer is the number
//! of leading zero bits of the XOR of bytes 2..6 (big endian) of the local key and the
//! peer key, capped at the last bucket.
use vstd::prelude::*;
use vstd::std_specs::bits::u32_leading_zeros;
use crate::bytes::{bytes_equal, contains_bytes, copy_bytes, keys_view};

verus! {

/// Number of buckets of a table.
pub const NUM_BUCKETS: usize = 32;

/// Number of peers from which a bucket counts as full.
pub const ALPHA: usize = 3;

/// The buckets of a table as sequences of peer keys.
pub type BucketsView = Seq<Seq<Seq<u8>>>;

/// Mathematical model of a [`BucketTable`].
pub struct BucketTableView {
    pub local_key: Seq<u8>,
    pub buckets: BucketsView,
    pub saturation: u8,
}

/// A table of connected peers grouped by their XOR distance to the local key.
pub struct BucketTable {
    local_key: Vec<u8>,
    buckets: Vec<Vec<Vec<u8>>>,
    saturation: u8,
}

/// The 32-bit big-endian word at bytes 2..6 of a key.
pub open spec fn key_word(key: Seq<u8>) -> u32 {
    (key[2] as int * 0x100_0000 + key[3] as int * 0x1_0000 + key[4] as int * 0x100
        + key[5] as int) as u32
}

/// The bucket of `peer` relative to `local`.
pub open spec fn bucket_of(local: Seq<u8>, peer: Seq<u8>) -> int {
    let lz = u32_leading_zeros(key_word(local) ^ key_word(peer));
    if lz >= NUM_BUCKETS {
        NUM_BUCKETS - 1
    } else {
        lz as int
    }
}

/// Index of the first bucket, at or after `i`, that holds fewer than `ALPHA` peers
/// (or `NUM_BUCKETS` when there is none).
pub open spec fn first_short(b: BucketsView, i: int) -> int
    decreases NUM_BUCKETS - i,
{
    if i < 0 || i >= NUM_BUCKETS || b[i].len() < ALPHA {
        i
    } else {
        first_short(b, i + 1)
    }
}

/// The last bucket of the leading run of full buckets (0 when bucket 0 is not full).
pub open spec fn last_full(b: BucketsView) -> int {
    let k = first_short(b, 0);
    if k == 0 {
        0
    } else {
        k - 1
    }
}

/// Number of peers held in buckets `from..to`.
pub open spec fn bucket_sum(b: BucketsView, from: int, to: int) -> int
    decreases to - from,
{
    if from >= to {
        0
    } else {
        b[from].len() + bucket_sum(b, from + 1, to)
    }
}

/// The saturation level of a table with these buckets: the last bucket of the leading
/// run of full buckets, one lower when the buckets from there up to the last one
/// together hold fewer than `ALPHA` peers.
pub open spec fn saturation_of(b: BucketsView) -> int {
    let t = last_full(b);
    if bucket_sum(b, t, NUM_BUCKETS - 1) < ALPHA && t > 0 {
        t - 1
    } else {
        t
    }
}

/// `b` with `peer` added to the end of bucket `i`.
pub open spec fn with_peer(b: BucketsView, i: int, peer: Seq<u8>) -> BucketsView {
    b.update(i, b[i].push(peer))
}

/// `b` with `peer` taken out of bucket `i`, the other peers keeping their order.
pub open spec fn without_peer(b: BucketsView, i: int, peer: Seq<u8>) -> BucketsView {
    b.update(i, b[i].remove(b[i].index_of(peer)))
}

/// The peers of `items`, other than `target`, taken in order, counting from `count`
/// and stopping after the one that brings the count to `max`; with the final count.
pub open spec fn scan_bucket(items: Seq<Seq<u8>>, target: Seq<u8>, count: int, max: int) -> (
    Seq<Seq<u8>>,
    int,
)
    decreases items.len(),
{
    if items.len() == 0 {
        (Seq::empty(), count)
    } else if items[0] == target {
        scan_bucket(items.drop_first(), target, count, max)
    } else if count + 1 >= max {
        (seq![items[0]], count + 1)
    } else {
        let rest = scan_bucket(items.drop_first(), target, count + 1, max);
        (seq![items[0]] + rest.0, rest.1)
    }
}

/// `scan_bucket` applied to buckets `from..to` in turn, the count carried over.
pub open spec fn scan_buckets(
    b: BucketsView,
    from: int,
    to: int,
    target: Seq<u8>,
    count: int,
    max: int,
) -> (Seq<Seq<u8>>, int)
    decreases to - from,
{
    if from >= to {
        (Seq::empty(), count)
    } else {
        let first = scan_bucket(b[from], target, count, max);
        let rest = scan_buckets(b, from + 1, to, target, first.1, max);
        (first.0 + rest.0, rest.1)
    }
}

/// The peers that `get_closet_peers` returns for `target` and the requested maximum.
pub open spec fn closest_peers(t: BucketTableView, target: Seq<u8>, amax_peers: int) -> Seq<
    Seq<u8>,
> {
    let max = if amax_peers == 0 {
        ALPHA as int
    } else {
        amax_peers
    };
    let idx = bucket_of(t.local_key, target);
    let known = t.buckets[idx].contains(target);
    let head: Seq<Seq<u8>> = if known {
        seq![target]
    } else {
        Seq::empty()
    };
    let count = if known {
        1int
    } else {
        0int
    };
    if idx <= t.saturation {
        head + scan_bucket(t.buckets[idx], target, count, max).0
    } else {
        head + scan_buckets(t.buckets, t.saturation + 1, NUM_BUCKETS - 1, target, count, max).0
    }
}

/// The buckets of a table, as sequences of keys.
pub open spec fn buckets_view(b: Vec<Vec<Vec<u8>>>) -> BucketsView {
    Seq::new(b@.len(), |i: int| keys_view(b@[i]))
}

impl View for BucketTable {
    type V = BucketTableView;

    closed spec fn view(&self) -> BucketTableView {
        BucketTableView {
            local_key: self.local_key@,
            buckets: buckets_view(self.buckets),
            saturation: self.saturation,
        }
    }
}

impl BucketTableView {
    /// Every peer sits, once, in the bucket of its distance; the saturation level
    /// is that of the buckets.
    pub open spec fn wf(self) -> bool {
        &&& self.buckets.len() == NUM_BUCKETS
        &&& forall|i: int| 0 <= i < NUM_BUCKETS ==> #[trigger] self.buckets[i].no_duplicates()
        &&& forall|i: int, j: int|
            0 <= i < NUM_BUCKETS && 0 <= j < self.buckets[i].len() ==> {
                &&& #[trigger] self.buckets[i][j].len() >= 6
                &&& bucket_of(self.local_key, self.buckets[i][j]) == i
            }
        &&& self.saturation == saturation_of(self.buckets)
    }
}

proof fn lemma_bucket_sum_nonneg(b: BucketsView, from: int, to: int)
    requires
        0 <= from,
        to <= b.len(),
    ensures
        bucket_sum(b, from, to) >= 0,
    decreases to - from,
{
    if from < to {
        lemma_bucket_sum_nonneg(b, from + 1, to);
    }
}

proof fn lemma_bucket_sum_split(b: BucketsView, from: int, mid: int, to: int)
    requires
        0 <= from <= mid <= to <= b.len(),
    ensures
        bucket_sum(b, from, to) == bucket_sum(b, from, mid) + bucket_sum(b, mid, to),
    decreases mid - from,
{
    if from < mid {
        lemma_bucket_sum_split(b, from + 1, mid, to);
    }
}

/// The big-endian word at bytes 2..6 of a key.
fn key_word_of(key: &Vec<u8>) -> (w: u32)
    requires
        key@.len() >= 6,
    ensures
        w == key_word(key@),
{
    let b2 = key[2] as u32;
    let b3 = key[3] as u32;
    let b4 = key[4] as u32;
    let b5 = key[5] as u32;
    b2 * 0x100_0000 + b3 * 0x1_0000 + b4 * 0x100 + b5
}

impl BucketTable {
    /// The bucket of `target`: the leading zeros of the XOR of the two key words,
    /// capped at the last bucket.
    fn bucket_index(&self, target: &Vec<u8>) -> (idx: usize)
        requires
            self.local_key@.len() >= 6,
            target@.len() >= 6,
        ensures
            idx == bucket_of(self@.local_key, target@),
            idx < NUM_BUCKETS,
    {
        let a = key_word_of(&self.local_key);
        let b = key_word_of(target);
        let distance = a ^ b;
        let mut idx = distance.leading_zeros() as usize;
        if idx >= NUM_BUCKETS {
            idx = NUM_BUCKETS - 1;
        }
        idx
    }

    /// An empty table around the local key.
    pub fn new(my_id: Vec<u8>) -> (t: Self)
        ensures
            t@.wf(),
            t@.local_key == my_id@,
            t@.buckets == Seq::new(NUM_BUCKETS as nat, |i: int| Seq::<Seq<u8>>::empty()),
            t@.saturation == 0,
    {
        let mut buckets: Vec<Vec<Vec<u8>>> = Vec::new();
        let mut i: usize = 0;
        while i < NUM_BUCKETS
            invariant
                0 <= i <= NUM_BUCKETS,
                buckets@.len() == i,
                forall|j: int| 0 <= j < i ==> (#[trigger] buckets@[j])@.len() == 0,
            decreases NUM_BUCKETS - i,
        {
            buckets.push(Vec::new());
            i = i + 1;
        }
        let t = BucketTable { local_key: my_id, buckets, saturation: 0 };
        proof {
            let bs = buckets_view(t.buckets);
            assert forall|i: int| 0 <= i < NUM_BUCKETS implies #[trigger] bs[i] =~= Seq::<
                Seq<u8>,
            >::empty() by {
                assert(t.buckets@[i]@.len() == 0);
            }
            assert(bs =~= Seq::new(NUM_BUCKETS as nat, |i: int| Seq::<Seq<u8>>::empty()));
            assert(first_short(bs, 0) == 0);
            assert(bucket_sum(bs, 0, NUM_BUCKETS - 1) == 0) by {
                lemma_empty_sum(bs, 0);
            }
        }
        t
    }

    /// The saturation level.
    pub fn get_saturation(&self) -> (s: u8)
        ensures
            s == self@.saturation,
    {
        self.saturation
    }

    /// Number of peers held in bucket `i`.
    pub fn bucket_len(&self, i: usize) -> (n: usize)
        requires
            i < self@.buckets.len(),
        ensures
            n == self@.buckets[i as int].len(),
    {
        self.buckets[i].len()
    }

    /// Recomputes the saturation level from the buckets.
    pub fn calc_saturation(&mut self)
        requires
            old(self)@.buckets.len() == NUM_BUCKETS,
        ensures
            final(self)@.saturation == saturation_of(old(self)@.buckets),
            final(self)@.buckets == old(self)@.buckets,
            final(self)@.local_key == old(self)@.local_key,
    {
        let ghost b = buckets_view(self.buckets);
        let mut i: usize = 0;
        let mut temp_sat: u8 = 0;
        while i < NUM_BUCKETS && self.buckets[i].len() >= ALPHA
            invariant
                b == buckets_view(self.buckets),
                b.len() == NUM_BUCKETS,
                0 <= i <= NUM_BUCKETS,
                first_short(b, i as int) == first_short(b, 0),
                temp_sat == (if i == 0 {
                    0
                } else {
                    i - 1
                }),
            decreases NUM_BUCKETS - i,
        {
            assert(b[i as int].len() == self.buckets@[i as int]@.len());
            temp_sat = i as u8;
            i = i + 1;
        }
        proof {
            if i < NUM_BUCKETS {
                assert(b[i as int].len() == self.buckets@[i as int]@.len());
            }
            assert(first_short(b, i as int) == i);
        }
        let mut j: usize = temp_sat as usize;
        let mut nodes_over_sat: usize = 0;
        let mut reached = false;
        while j < NUM_BUCKETS - 1 && !reached
            invariant
                b == buckets_view(self.buckets),
                b.len() == NUM_BUCKETS,
                temp_sat == last_full(b),
                temp_sat <= j <= NUM_BUCKETS - 1,
                !reached ==> nodes_over_sat == bucket_sum(b, temp_sat as int, j as int)
                    && nodes_over_sat < ALPHA,
                reached ==> bucket_sum(b, temp_sat as int, NUM_BUCKETS - 1) >= ALPHA,
            decreases NUM_BUCKETS - j,
        {
            let len = self.buckets[j].len();
            assert(b[j as int].len() == len);
            proof {
                lemma_bucket_sum_split(b, temp_sat as int, j as int, j + 1);
                assert(bucket_sum(b, j + 1, j + 1) == 0);
                assert(bucket_sum(b, j as int, j + 1) == b[j as int].len());
            }
            if len >= ALPHA - nodes_over_sat {
                reached = true;
                proof {
                    lemma_bucket_sum_split(b, temp_sat as int, j + 1, NUM_BUCKETS - 1);
                    lemma_bucket_sum_nonneg(b, j + 1, NUM_BUCKETS - 1);
                }
            } else {
                nodes_over_sat = nodes_over_sat + len;
            }
            j = j + 1;
        }
        if !reached {
            if temp_sat > 0 {
                temp_sat = temp_sat - 1;
            }
        }
        self.saturation = temp_sat;
    }

    /// Appends to `result` the peers of `bucket` other than `target`, in order, until
    /// `result` holds `max` peers (at least one peer is taken when there is one).
    fn scan_into(bucket: &Vec<Vec<u8>>, target: &Vec<u8>, max: usize, result: &mut Vec<Vec<u8>>)
        requires
            max >= 1,
        ensures
            ({
                let s = scan_bucket(keys_view(*bucket), target@, old(result)@.len() as int, max as int);
                &&& keys_view(*final(result)) == keys_view(*old(result)) + s.0
                &&& final(result)@.len() == s.1
            }),
    {
        let ghost items = keys_view(*bucket);
        let ghost c0 = result@.len() as int;
        let ghost r0 = keys_view(*result);
        let ghost goal = scan_bucket(items, target@, c0, max as int);
        let mut i: usize = 0;
        let mut stop = false;
        assert(items.skip(0) =~= items);
        while i < bucket.len() && !stop
            invariant
                items == keys_view(*bucket),
                max >= 1,
                0 <= i <= bucket@.len(),
                !stop ==> ({
                    let s = scan_bucket(items.skip(i as int), target@, result@.len() as int, max as int);
                    &&& keys_view(*result) + s.0 == r0 + goal.0
                    &&& s.1 == goal.1
                }),
                stop ==> keys_view(*result) == r0 + goal.0 && result@.len() == goal.1,
            decreases bucket@.len() - i,
        {
            let ghost rest = items.skip(i as int);
            proof {
                assert(rest[0] == items[i as int]);
                assert(rest.drop_first() =~= items.skip(i + 1));
                assert(items[i as int] == bucket@[i as int]@);
            }
            if !bytes_equal(&bucket[i], target) {
                let ghost before = keys_view(*result);
                let item = copy_bytes(&bucket[i]);
                result.push(item);
                proof {
                    assert(keys_view(*result) =~= before.push(items[i as int]));
                }
                if result.len() >= max {
                    stop = true;
                    proof {
                        assert(before.push(items[i as int]) =~= before + seq![items[i as int]]);
                    }
                } else {
                    proof {
                        let s2 = scan_bucket(items.skip(i + 1), target@, result@.len() as int, max as int);
                        assert(before + (seq![items[i as int]] + s2.0) =~= keys_view(*result) + s2.0);
                    }
                }
            }
            i = i + 1;
        }
        proof {
            if !stop {
                assert(items.skip(i as int) =~= Seq::<Seq<u8>>::empty());
            }
        }
    }

    /// The peers to contact for `target`, at most about `amax_peers` of them (`ALPHA`
    /// when 0): `target` itself first when it is known, then peers of its bucket when
    /// the bucket lies within the saturation level, else peers of the buckets above it.
    pub fn get_closet_peers(&mut self, target: &Vec<u8>, amax_peers: usize) -> (r: Vec<Vec<u8>>)
        requires
            old(self)@.wf(),
            old(self)@.local_key.len() >= 6,
            target@.len() >= 6,
        ensures
            final(self)@ == old(self)@,
            keys_view(r) == closest_peers(old(self)@, target@, amax_peers as int),
    {
        let ghost t = self@;
        let mut max_peers = amax_peers;
        if max_peers == 0 {
            max_peers = ALPHA;
        }
        let idx = self.bucket_index(target);
        let mut result: Vec<Vec<u8>> = Vec::new();
        assert(keys_view(self.buckets@[idx as int]) == t.buckets[idx as int]);
        if contains_bytes(&self.buckets[idx], target) {
            result.push(copy_bytes(target));
            assert(keys_view(result) =~= seq![target@]);
        } else {
            assert(keys_view(result) =~= Seq::<Seq<u8>>::empty());
        }
        if idx <= self.saturation as usize {
            Self::scan_into(&self.buckets[idx], target, max_peers, &mut result);
        } else {
            let ghost head = keys_view(result);
            let ghost goal = scan_buckets(
                t.buckets,
                t.saturation + 1,
                NUM_BUCKETS - 1,
                target@,
                result@.len() as int,
                max_peers as int,
            );
            let mut index: usize = (self.saturation as usize) + 1;
            while index < NUM_BUCKETS - 1
                invariant
                    t == self@,
                    t.wf(),
                    max_peers >= 1,
                    t.saturation + 1 <= index <= NUM_BUCKETS - 1,
                    ({
                        let s = scan_buckets(
                            t.buckets,
                            index as int,
                            NUM_BUCKETS - 1,
                            target@,
                            result@.len() as int,
                            max_peers as int,
                        );
                        &&& keys_view(result) + s.0 == head + goal.0
                        &&& s.1 == goal.1
                    }),
                decreases NUM_BUCKETS - index,
            {
                let ghost before = keys_view(result);
                let ghost s1 = scan_bucket(
                    t.buckets[index as int],
                    target@,
                    result@.len() as int,
                    max_peers as int,
                );
                assert(keys_view(self.buckets@[index as int]) == t.buckets[index as int]);
                Self::scan_into(&self.buckets[index], target, max_peers, &mut result);
                proof {
                    let s2 = scan_buckets(
                        t.buckets,
                        index + 1,
                        NUM_BUCKETS - 1,
                        target@,
                        s1.1,
                        max_peers as int,
                    );
                    assert(before + (s1.0 + s2.0) =~= keys_view(result) + s2.0);
                }
                index = index + 1;
            }
            proof {
                assert(head + goal.0 =~= keys_view(result) + Seq::<Seq<u8>>::empty());
            }
        }
        result
    }

    /// Records a connected peer in the bucket of its distance, if it is not there yet,
    /// and recomputes the saturation level.
    #[allow(non_snake_case)]
    pub fn PeerConnected(&mut self, peer: &Vec<u8>)
        requires
            old(self)@.wf(),
            old(self)@.local_key.len() >= 6,
            peer@.len() >= 6,
        ensures
            final(self)@.wf(),
            final(self)@.local_key == old(self)@.local_key,
            ({
                let i = bucket_of(old(self)@.local_key, peer@);
                final(self)@.buckets == if old(self)@.buckets[i].contains(peer@) {
                    old(self)@.buckets
                } else {
                    with_peer(old(self)@.buckets, i, peer@)
                }
            }),
    {
        let idx = self.bucket_index(peer);
        assert(keys_view(self.buckets@[idx as int]) == self@.buckets[idx as int]);
        if !contains_bytes(&self.buckets[idx], peer) {
            let ghost old_b = buckets_view(self.buckets);
            let p = copy_bytes(peer);
            let mut bucket: Vec<Vec<u8>> = Vec::new();
            std::mem::swap(&mut bucket, &mut self.buckets[idx]);
            bucket.push(p);
            self.buckets.set(idx, bucket);
            proof {
                let nb = buckets_view(self.buckets);
                assert(nb =~= with_peer(old_b, idx as int, peer@)) by {
                    assert(nb[idx as int] =~= old_b[idx as int].push(peer@));
                }
                assert forall|k: int| 0 <= k < NUM_BUCKETS implies #[trigger] nb[k].no_duplicates() by {
                    if k == idx {
                        let ob = old_b[k];
                        assert(nb[k] == ob.push(peer@));
                        assert(ob.no_duplicates());
                        assert forall|x: int, y: int|
                            0 <= x < nb[k].len() && 0 <= y < nb[k].len() && x != y
                            implies nb[k][x] != nb[k][y] by {
                            if x == ob.len() {
                                assert(nb[k][x] == peer@);
                                assert(nb[k][y] == ob[y]);
                            } else if y == ob.len() {
                                assert(nb[k][y] == peer@);
                                assert(nb[k][x] == ob[x]);
                            } else {
                                assert(nb[k][x] == ob[x]);
                                assert(nb[k][y] == ob[y]);
                            }
                        }
                    } else {
                        assert(nb[k] == old_b[k]);
                    }
                }
                assert forall|k: int, j: int|
                    0 <= k < NUM_BUCKETS && 0 <= j < nb[k].len() implies {
                        &&& #[trigger] nb[k][j].len() >= 6
                        &&& bucket_of(self@.local_key, nb[k][j]) == k
                    } by {
                    if k == idx && j == old_b[k].len() {
                        assert(nb[k][j] == peer@);
                    } else {
                        assert(nb[k][j] == old_b[k][j]);
                    }
                }
            }
            self.calc_saturation();
        }
    }

    /// Forgets a disconnected peer and recomputes the saturation level when it was known.
    #[allow(non_snake_case)]
    pub fn PeerDisconnected(&mut self, peer: &Vec<u8>)
        requires
            old(self)@.wf(),
            old(self)@.local_key.len() >= 6,
            peer@.len() >= 6,
        ensures
            final(self)@.wf(),
            final(self)@.local_key == old(self)@.local_key,
            ({
                let i = bucket_of(old(self)@.local_key, peer@);
                final(self)@.buckets == if old(self)@.buckets[i].contains(peer@) {
                    without_peer(old(self)@.buckets, i, peer@)
                } else {
                    old(self)@.buckets
                }
            }),
    {
        let idx = self.bucket_index(peer);
        assert(keys_view(self.buckets@[idx as int]) == self@.buckets[idx as int]);
        if contains_bytes(&self.buckets[idx], peer) {
            let ghost old_b = buckets_view(self.buckets);
            let pos = position_of(&self.buckets[idx], peer);
            let mut bucket: Vec<Vec<u8>> = Vec::new();
            std::mem::swap(&mut bucket, &mut self.buckets[idx]);
            bucket.remove(pos);
            self.buckets.set(idx, bucket);
            proof {
                let nb = buckets_view(self.buckets);
                let ob = old_b[idx as int];
                assert(nb =~= without_peer(old_b, idx as int, peer@)) by {
                    assert(nb[idx as int] =~= ob.remove(pos as int));
                }
                assert forall|k: int| 0 <= k < NUM_BUCKETS implies #[trigger] nb[k].no_duplicates() by {
                    if k == idx {
                        assert forall|x: int, y: int|
                            0 <= x < nb[k].len() && 0 <= y < nb[k].len() && x != y
                            implies nb[k][x] != nb[k][y] by {
                            let ox = if x < pos { x } else { x + 1 };
                            let oy = if y < pos { y } else { y + 1 };
                            assert(ob.no_duplicates());
                            assert(nb[k][x] == ob[ox]);
                            assert(nb[k][y] == ob[oy]);
                            assert(ob[ox] != ob[oy]);
                        }
                    } else {
                        assert(nb[k] == old_b[k]);
                    }
                }
                assert forall|k: int, j: int|
                    0 <= k < NUM_BUCKETS && 0 <= j < nb[k].len() implies {
                        &&& #[trigger] nb[k][j].len() >= 6
                        &&& bucket_of(self@.local_key, nb[k][j]) == k
                    } by {
                    if k == idx {
                        let oj = if j < pos { j } else { j + 1 };
                        assert(nb[k][j] == ob[oj]);
                    } else {
                        assert(nb[k][j] == old_b[k][j]);
                    }
                }
            }
            self.calc_saturation();
        }
    }
}

/// The saturation level never reaches the last bucket: it lies in
/// `0..NUM_BUCKETS - 1` whatever the buckets hold.
pub proof fn lemma_saturation_below_last_bucket(b: BucketsView)
    requires
        b.len() == NUM_BUCKETS,
    ensures
        0 <= saturation_of(b) < NUM_BUCKETS - 1,
{
    lemma_first_short_range(b, 0);
    let t = last_full(b);
    if t == NUM_BUCKETS - 1 {
        assert(bucket_sum(b, t, NUM_BUCKETS - 1) == 0);
    }
}

/// The closest peers of a known target start with the target itself.
pub proof fn lemma_known_target_comes_first(t: BucketTableView, target: Seq<u8>, amax_peers: int)
    requires
        t.buckets[bucket_of(t.local_key, target)].contains(target),
    ensures
        closest_peers(t, target, amax_peers).len() >= 1,
        closest_peers(t, target, amax_peers)[0] == target,
{
}

/// The closest peers of a target never name it more than once: it is taken first
/// when known and skipped while scanning the buckets.
pub proof fn lemma_target_not_scanned(items: Seq<Seq<u8>>, target: Seq<u8>, count: int, max: int)
    ensures
        !scan_bucket(items, target, count, max).0.contains(target),
    decreases items.len(),
{
    if items.len() > 0 {
        lemma_target_not_scanned(items.drop_first(), target, count, max);
        if items[0] != target && count + 1 < max {
            let rest = scan_bucket(items.drop_first(), target, count + 1, max);
            lemma_target_not_scanned(items.drop_first(), target, count + 1, max);
            let r = seq![items[0]] + rest.0;
            assert forall|i: int| 0 <= i < r.len() implies r[i] != target by {
                if i > 0 {
                    assert(r[i] == rest.0[i - 1]);
                }
            }
        }
    }
}

/// The peers to contact for a target are distinct, and at most `NUM_BUCKETS` more than
/// the number asked for (`ALPHA` when 0): beyond the bucket of the target, each bucket
/// scanned can add one peer past that number.
pub proof fn lemma_closest_peers_distinct(t: BucketTableView, target: Seq<u8>, amax_peers: int)
    requires
        t.wf(),
        amax_peers >= 0,
    ensures
        closest_peers(t, target, amax_peers).no_duplicates(),
        closest_peers(t, target, amax_peers).len() <= (if amax_peers == 0 {
            ALPHA as int
        } else {
            amax_peers
        }) + NUM_BUCKETS,
{
    let max = if amax_peers == 0 {
        ALPHA as int
    } else {
        amax_peers
    };
    let idx = bucket_of(t.local_key, target);
    let known = t.buckets[idx].contains(target);
    let head: Seq<Seq<u8>> = if known {
        seq![target]
    } else {
        Seq::empty()
    };
    let count = if known {
        1int
    } else {
        0int
    };
    lemma_saturation_below_last_bucket(t.buckets);
    let tail = if idx <= t.saturation {
        lemma_scan_bucket_facts(t.buckets[idx], target, count, max);
        scan_bucket(t.buckets[idx], target, count, max).0
    } else {
        lemma_scan_buckets_facts(t, t.saturation + 1, NUM_BUCKETS - 1, target, count, max);
        scan_buckets(t.buckets, t.saturation + 1, NUM_BUCKETS - 1, target, count, max).0
    };
    let r = head + tail;
    assert(r == closest_peers(t, target, amax_peers));
    assert forall|a: int, c: int| 0 <= a < r.len() && 0 <= c < r.len() && a != c implies r[a] != r[c] by {
        if a < head.len() && c >= head.len() {
            assert(tail.contains(r[c]));
        } else if c < head.len() && a >= head.len() {
            assert(tail.contains(r[a]));
        } else if a >= head.len() && c >= head.len() {
            assert(r[a] == tail[a - head.len()] && r[c] == tail[c - head.len()]);
        }
    }
}

/// The peers to contact for a target come from the right buckets: when the target's
/// bucket lies within the saturation level, every peer returned is held in that
/// bucket; otherwise every peer returned, other than the target itself, is held in a
/// bucket above the saturation level (and below the last one). The target is returned
/// only when it is held, and then first.
pub proof fn lemma_closest_peers_buckets(t: BucketTableView, target: Seq<u8>, amax_peers: int)
    requires
        t.wf(),
        amax_peers >= 0,
    ensures
        ({
            let r = closest_peers(t, target, amax_peers);
            let idx = bucket_of(t.local_key, target);
            &&& forall|x: Seq<u8>| #[trigger] r.contains(x) ==> t.buckets[bucket_of(t.local_key, x)].contains(x)
            &&& idx <= t.saturation ==> forall|x: Seq<u8>| #[trigger] r.contains(x) ==> bucket_of(t.local_key, x) == idx
            &&& idx > t.saturation ==> forall|x: Seq<u8>|
                #[trigger] r.contains(x) && x != target ==> t.saturation < bucket_of(t.local_key, x) < NUM_BUCKETS - 1
            &&& r.contains(target) ==> t.buckets[idx].contains(target) && r[0] == target
        }),
{
    let max = if amax_peers == 0 {
        ALPHA as int
    } else {
        amax_peers
    };
    let idx = bucket_of(t.local_key, target);
    let known = t.buckets[idx].contains(target);
    let head: Seq<Seq<u8>> = if known {
        seq![target]
    } else {
        Seq::empty()
    };
    let count = if known {
        1int
    } else {
        0int
    };
    lemma_saturation_below_last_bucket(t.buckets);
    let r = closest_peers(t, target, amax_peers);
    if idx <= t.saturation {
        lemma_scan_bucket_facts(t.buckets[idx], target, count, max);
    } else {
        lemma_scan_buckets_facts(t, t.saturation + 1, NUM_BUCKETS - 1, target, count, max);
    }
    let tail = if idx <= t.saturation {
        scan_bucket(t.buckets[idx], target, count, max).0
    } else {
        scan_buckets(t.buckets, t.saturation + 1, NUM_BUCKETS - 1, target, count, max).0
    };
    assert(r == head + tail);
    assert forall|x: Seq<u8>| #[trigger] r.contains(x) implies t.buckets[bucket_of(t.local_key, x)].contains(x) && (idx
        <= t.saturation ==> bucket_of(t.local_key, x) == idx) && (idx > t.saturation && x != target ==> t.saturation
        < bucket_of(t.local_key, x) < NUM_BUCKETS - 1) by {
        let j = choose|j: int| 0 <= j < r.len() && r[j] == x;
        if j < head.len() {
            assert(x == target);
        } else {
            assert(tail[j - head.len()] == x);
            assert(tail.contains(x));
            if idx <= t.saturation {
                assert(t.buckets[idx].contains(x));
            }
            let k = bucket_of(t.local_key, x);
            if idx > t.saturation {
                assert(0 <= k < NUM_BUCKETS);
            }
            if idx <= t.saturation {
                let i = choose|i: int| 0 <= i < t.buckets[idx].len() && t.buckets[idx][i] == x;
                assert(t.buckets[idx][i].len() >= 6);
                assert(k == idx);
            } else {
                lemma_scanned_peer_held(t, t.saturation + 1, NUM_BUCKETS - 1, target, count, max, x);
            }
        }
    }
    if r.contains(target) {
        let j = choose|j: int| 0 <= j < r.len() && r[j] == target;
        if j >= head.len() {
            assert(tail[j - head.len()] == target);
            assert(tail.contains(target));
        }
        assert(known);
    }
}

/// A peer that scanning buckets `from..to` returns is held in its bucket.
proof fn lemma_scanned_peer_held(
    t: BucketTableView,
    from: int,
    to: int,
    target: Seq<u8>,
    count: int,
    max: int,
    x: Seq<u8>,
)
    requires
        t.wf(),
        0 <= from <= to <= NUM_BUCKETS,
        max >= 1,
        count >= 0,
        scan_buckets(t.buckets, from, to, target, count, max).0.contains(x),
    ensures
        t.buckets[bucket_of(t.local_key, x)].contains(x),
    decreases to - from,
{
    if from < to {
        lemma_scan_bucket_facts(t.buckets[from], target, count, max);
        let first = scan_bucket(t.buckets[from], target, count, max);
        let rest = scan_buckets(t.buckets, from + 1, to, target, first.1, max);
        let o = first.0 + rest.0;
        let j = choose|j: int| 0 <= j < o.len() && o[j] == x;
        if j < first.0.len() {
            assert(first.0[j] == x);
            assert(first.0.contains(x));
            let i = choose|i: int| 0 <= i < t.buckets[from].len() && t.buckets[from][i] == x;
            assert(t.buckets[from][i].len() >= 6);
        } else {
            assert(rest.0[j - first.0.len()] == x);
            lemma_scanned_peer_held(t, from + 1, to, target, first.1, max, x);
        }
    }
}

proof fn lemma_scan_bucket_facts(items: Seq<Seq<u8>>, target: Seq<u8>, count: int, max: int)
    requires
        items.no_duplicates(),
        max >= 1,
        count >= 0,
    ensures
        scan_bucket(items, target, count, max).1 == count + scan_bucket(items, target, count, max).0.len(),
        scan_bucket(items, target, count, max).0.no_duplicates(),
        forall|x: Seq<u8>|
            #[trigger] scan_bucket(items, target, count, max).0.contains(x) ==> items.contains(x) && x != target,
        scan_bucket(items, target, count, max).0.len() <= if count + 1 >= max {
            1
        } else {
            max - count
        },
    decreases items.len(),
{
    if items.len() > 0 {
        let d = items.drop_first();
        assert(d.no_duplicates()) by {
            assert forall|a: int, c: int| 0 <= a < d.len() && 0 <= c < d.len() && a != c implies d[a] != d[c] by {
                assert(d[a] == items[a + 1] && d[c] == items[c + 1]);
            }
        }
        assert forall|x: Seq<u8>| d.contains(x) implies items.contains(x) by {
            let j = choose|j: int| 0 <= j < d.len() && d[j] == x;
            assert(items[j + 1] == x);
        }
        if items[0] == target {
            lemma_scan_bucket_facts(d, target, count, max);
        } else if count + 1 >= max {
            let o = seq![items[0]];
            assert forall|x: Seq<u8>| o.contains(x) implies items.contains(x) && x != target by {
                assert(o[0] == x);
            }
        } else {
            lemma_scan_bucket_facts(d, target, count + 1, max);
            let rest = scan_bucket(d, target, count + 1, max).0;
            let o = seq![items[0]] + rest;
            assert(o == scan_bucket(items, target, count, max).0);
            assert(!rest.contains(items[0])) by {
                if rest.contains(items[0]) {
                    let j = choose|j: int| 0 <= j < d.len() && d[j] == items[0];
                    assert(items[j + 1] == items[0]);
                }
            }
            assert forall|a: int, c: int| 0 <= a < o.len() && 0 <= c < o.len() && a != c implies o[a] != o[c] by {
                if a == 0 {
                    assert(rest.contains(o[c]));
                } else if c == 0 {
                    assert(rest.contains(o[a]));
                } else {
                    assert(o[a] == rest[a - 1] && o[c] == rest[c - 1]);
                }
            }
            assert forall|x: Seq<u8>| o.contains(x) implies items.contains(x) && x != target by {
                let j = choose|j: int| 0 <= j < o.len() && o[j] == x;
                if j > 0 {
                    assert(rest[j - 1] == x);
                    assert(rest.contains(x));
                }
            }
        }
    }
}

proof fn lemma_scan_buckets_facts(t: BucketTableView, from: int, to: int, target: Seq<u8>, count: int, max: int)
    requires
        t.wf(),
        0 <= from <= to <= NUM_BUCKETS,
        max >= 1,
        count >= 0,
    ensures
        ({
            let r = scan_buckets(t.buckets, from, to, target, count, max);
            &&& r.1 == count + r.0.len()
            &&& r.0.no_duplicates()
            &&& forall|x: Seq<u8>|
                #[trigger] r.0.contains(x) ==> x != target && from <= bucket_of(t.local_key, x) < to
            &&& r.1 <= (if count > max {
                count
            } else {
                max
            }) + (to - from)
        }),
    decreases to - from,
{
    if from < to {
        lemma_scan_bucket_facts(t.buckets[from], target, count, max);
        let first = scan_bucket(t.buckets[from], target, count, max);
        lemma_scan_buckets_facts(t, from + 1, to, target, first.1, max);
        let rest = scan_buckets(t.buckets, from + 1, to, target, first.1, max);
        let o = first.0 + rest.0;
        assert forall|x: Seq<u8>| first.0.contains(x) implies bucket_of(t.local_key, x) == from by {
            assert(t.buckets[from].contains(x));
            let j = choose|j: int| 0 <= j < t.buckets[from].len() && t.buckets[from][j] == x;
            assert(t.buckets[from][j].len() >= 6);
        }
        assert forall|a: int, c: int| 0 <= a < o.len() && 0 <= c < o.len() && a != c implies o[a] != o[c] by {
            let n = first.0.len() as int;
            if a < n && c < n {
                assert(o[a] == first.0[a] && o[c] == first.0[c]);
            } else if a >= n && c >= n {
                assert(o[a] == rest.0[a - n] && o[c] == rest.0[c - n]);
            } else if a < n {
                assert(first.0.contains(o[a]));
                assert(o[c] == rest.0[c - n]);
                assert(rest.0.contains(o[c]));
            } else {
                assert(first.0.contains(o[c]));
                assert(o[a] == rest.0[a - n]);
                assert(rest.0.contains(o[a]));
            }
        }
        assert forall|x: Seq<u8>| #[trigger] o.contains(x) implies x != target && from <= bucket_of(t.local_key, x)
            < to by {
            let j = choose|j: int| 0 <= j < o.len() && o[j] == x;
            let n = first.0.len() as int;
            if j < n {
                assert(first.0[j] == x);
                assert(first.0.contains(x));
            } else {
                assert(rest.0[j - n] == x);
                assert(rest.0.contains(x));
            }
        }
    }
}

proof fn lemma_first_short_range(b: BucketsView, i: int)
    requires
        0 <= i <= NUM_BUCKETS,
    ensures
        i <= first_short(b, i) <= NUM_BUCKETS,
    decreases NUM_BUCKETS - i,
{
    if i < NUM_BUCKETS && b[i].len() >= ALPHA {
        lemma_first_short_range(b, i + 1);
    }
}

/// Disconnecting a peer undoes connecting it: adding a peer that a bucket does not
/// hold and then taking it out again gives back the same buckets.
pub proof fn lemma_disconnect_undoes_connect(b: BucketsView, i: int, peer: Seq<u8>)
    requires
        0 <= i < b.len(),
        !b[i].contains(peer),
    ensures
        with_peer(b, i, peer)[i].contains(peer),
        without_peer(with_peer(b, i, peer), i, peer) == b,
        saturation_of(without_peer(with_peer(b, i, peer), i, peer)) == saturation_of(b),
{
    let nb = with_peer(b, i, peer);
    let bucket = b[i].push(peer);
    assert(nb[i] == bucket);
    assert(bucket[b[i].len() as int] == peer);
    let k = bucket.index_of(peer);
    assert(0 <= k < bucket.len() && bucket[k] == peer);
    if k < b[i].len() {
        assert(b[i][k] == peer);
    }
    assert(k == b[i].len());
    assert(bucket.remove(k) =~= b[i]);
    assert(without_peer(nb, i, peer) =~= b);
}

/// Connecting a peer that is already known changes nothing, so connecting twice
/// is the same as connecting once.
pub proof fn lemma_connect_idempotent(b: BucketsView, i: int, peer: Seq<u8>)
    requires
        0 <= i < b.len(),
    ensures
        with_peer(b, i, peer)[i].contains(peer),
{
    assert(with_peer(b, i, peer)[i][b[i].len() as int] == peer);
}

/// Connecting a peer never lowers the saturation level: a table whose buckets hold
/// one more peer is at least as saturated.
pub proof fn lemma_connect_never_lowers_saturation(b: BucketsView, i: int, peer: Seq<u8>)
    requires
        b.len() == NUM_BUCKETS,
        0 <= i < NUM_BUCKETS,
    ensures
        saturation_of(with_peer(b, i, peer)) >= saturation_of(b),
{
    let b2 = with_peer(b, i, peer);
    assert forall|j: int| 0 <= j < NUM_BUCKETS implies #[trigger] b2[j].len() >= b[j].len() by {
        if j == i {
            assert(b2[j] == b[j].push(peer));
        }
    }
    lemma_fuller_buckets_saturate_more(b, b2);
}

/// Buckets that each hold at least as many peers give at least the same saturation.
proof fn lemma_fuller_buckets_saturate_more(b: BucketsView, b2: BucketsView)
    requires
        b.len() == NUM_BUCKETS,
        b2.len() == NUM_BUCKETS,
        forall|j: int| 0 <= j < NUM_BUCKETS ==> #[trigger] b2[j].len() >= b[j].len(),
    ensures
        saturation_of(b2) >= saturation_of(b),
{
    lemma_first_short_grows(b, b2, 0);
    lemma_first_short_range(b, 0);
    lemma_first_short_range(b2, 0);
    let k = first_short(b, 0);
    let k2 = first_short(b2, 0);
    if k2 == k {
        let t = last_full(b);
        assert(last_full(b2) == t);
        lemma_bucket_sum_grows(b, b2, t, NUM_BUCKETS - 1);
    }
}

proof fn lemma_first_short_grows(b: BucketsView, b2: BucketsView, i: int)
    requires
        b.len() == NUM_BUCKETS,
        b2.len() == NUM_BUCKETS,
        forall|j: int| 0 <= j < NUM_BUCKETS ==> #[trigger] b2[j].len() >= b[j].len(),
        0 <= i <= NUM_BUCKETS,
    ensures
        first_short(b2, i) >= first_short(b, i),
    decreases NUM_BUCKETS - i,
{
    if i < NUM_BUCKETS && b[i].len() >= ALPHA {
        assert(b2[i].len() >= ALPHA);
        lemma_first_short_grows(b, b2, i + 1);
    } else if i < NUM_BUCKETS && b2[i].len() >= ALPHA {
        lemma_first_short_range(b2, i + 1);
    }
}

proof fn lemma_bucket_sum_grows(b: BucketsView, b2: BucketsView, from: int, to: int)
    requires
        b.len() == NUM_BUCKETS,
        b2.len() == NUM_BUCKETS,
        forall|j: int| 0 <= j < NUM_BUCKETS ==> #[trigger] b2[j].len() >= b[j].len(),
        0 <= from,
        to <= NUM_BUCKETS,
    ensures
        bucket_sum(b2, from, to) >= bucket_sum(b, from, to),
    decreases to - from,
{
    if from < to {
        lemma_bucket_sum_grows(b, b2, from + 1, to);
    }
}

proof fn lemma_empty_sum(b: BucketsView, from: int)
    requires
        0 <= from <= NUM_BUCKETS - 1,
        b.len() == NUM_BUCKETS,
        forall|i: int| 0 <= i < NUM_BUCKETS ==> #[trigger] b[i].len() == 0,
    ensures
        bucket_sum(b, from, NUM_BUCKETS - 1) == 0,
    decreases NUM_BUCKETS - from,
{
    if from < NUM_BUCKETS - 1 {
        lemma_empty_sum(b, from + 1);
    }
}

/// `peer` is held in one of the buckets.
pub open spec fn holds_peer(b: BucketTableView, peer: Seq<u8>) -> bool {
    exists|i: int| 0 <= i < NUM_BUCKETS && #[trigger] b.buckets[i].contains(peer)
}

impl BucketTable {
    /// Whether `peer` is held in the table, that is, is a connected peer.
    pub fn has_peer(&self, peer: &Vec<u8>) -> (r: bool)
        requires
            self@.wf(),
            self@.local_key.len() >= 6,
        ensures
            r == holds_peer(self@, peer@),
    {
        if peer.len() < 6 {
            proof {
                if holds_peer(self@, peer@) {
                    let i = choose|i: int| 0 <= i < NUM_BUCKETS && #[trigger] self@.buckets[i].contains(peer@);
                    let j = choose|j: int| 0 <= j < self@.buckets[i].len() && self@.buckets[i][j] == peer@;
                    assert(self@.buckets[i][j].len() >= 6);
                }
            }
            return false;
        }
        let i = self.bucket_index(peer);
        let r = contains_bytes(&self.buckets[i], peer);
        proof {
            assert(self@.buckets[i as int] == keys_view(self.buckets@[i as int]));
            if holds_peer(self@, peer@) {
                let k = choose|k: int| 0 <= k < NUM_BUCKETS && #[trigger] self@.buckets[k].contains(peer@);
                let j = choose|j: int| 0 <= j < self@.buckets[k].len() && self@.buckets[k][j] == peer@;
                assert(bucket_of(self@.local_key, self@.buckets[k][j]) == k);
            }
        }
        r
    }
}

/// Position of a byte string known to occur in a sequence of byte strings.
fn position_of(items: &Vec<Vec<u8>>, x: &Vec<u8>) -> (pos: usize)
    requires
        keys_view(*items).contains(x@),
        keys_view(*items).no_duplicates(),
    ensures
        pos < items@.len(),
        pos == keys_view(*items).index_of(x@),
{
    let ghost dv = keys_view(*items);
    let mut i: usize = 0;
    while i < items.len()
        invariant
            dv == keys_view(*items),
            dv.contains(x@),
            dv.no_duplicates(),
            0 <= i <= items@.len(),
            forall|j: int| 0 <= j < i ==> dv[j] != x@,
        decreases items@.len() - i,
    {
        assert(dv[i as int] == items@[i as int]@);
        if bytes_equal(&items[i], x) {
            proof {
                assert(dv[i as int] == x@);
                let k = dv.index_of(x@);
                assert(0 <= k < dv.len() && dv[k] == x@);
                assert(k == i as int);
            }
            return i;
        }
        i = i + 1;
    }
    assert(false);
    0
}

} // verus!
