//! The push/pull exchange of topic messages between neighbouring peers.
//!
//! A short message is pushed to the registered peers together with its hash; of a
//! long one only the hash is pushed, and a peer that receives a hash it has not seen
//! pulls the data. A message sent is not kept: a pull is answered only from the
//! messages the engine holds for pulling. The engine decides what to send and what to hand to
//! topic subscribers; sending and delivering is left to its caller.
use vstd::prelude::*;
use crate::bytes::{bytes_equal, copy_bytes, keys_view};
use crate::hashing::{blake2_256_hash, blake2_hash, scale_bytes, scale_encode_bytes};
use crate::lru_cache::{
    bounded, message_cache_cap, message_cache_entries, message_cache_get, message_cache_new,
    message_cache_order, lru_consistent, lru_used, put_result, received_cache_cap, received_cache_entries,
    received_cache_get, received_cache_new, received_cache_put, MessageCache, ReceivedCache,
};

verus! {

/// Number of long messages kept for peers to pull.
pub const MAX_PENDING_DATA: usize = 4096;

/// Number of message hashes remembered as received.
pub const KNOWN_MESSAGES_CACHE_SIZE: usize = 40960;

/// Longest message pushed directly; longer ones are announced by hash.
pub const MAX_DIRECT_PUSH_SIZE: usize = 256;

/// Command of a hash announcement.
pub const PUSH_HASH: u8 = 0x01;

/// Command of a request for the data of a hash.
pub const PULL_DATA: u8 = 0x02;

/// Command of a message pushed with its data.
pub const PUSH_DATA: u8 = 0x03;

/// Model of a [`MessageWithTopic`].
pub struct MessageView {
    pub topic: Seq<u8>,
    pub message: Seq<u8>,
}

/// A message together with the topic it belongs to.
#[derive(Debug, PartialEq, Eq)]
pub struct MessageWithTopic {
    pub topic: Vec<u8>,
    pub message: Vec<u8>,
}

impl View for MessageWithTopic {
    type V = MessageView;

    open spec fn view(&self) -> MessageView {
        MessageView { topic: self.topic@, message: self.message@ }
    }
}

impl Clone for MessageWithTopic {
    fn clone(&self) -> (r: Self)
        ensures
            r@ == self@,
    {
        MessageWithTopic { topic: copy_bytes(&self.topic), message: copy_bytes(&self.message) }
    }
}

/// The topic and data of a message have lengths that SCALE can encode.
pub open spec fn encodable(m: MessageView) -> bool {
    m.topic.len() <= u32::MAX && m.message.len() <= u32::MAX
}

/// The SCALE encoding of a message: its topic, then its data.
pub open spec fn message_encoding(m: MessageView) -> Seq<u8> {
    scale_bytes(m.topic) + scale_bytes(m.message)
}

/// The hash of a message: the Blake2-256 digest of its encoding.
pub open spec fn message_hash(m: MessageView) -> Seq<u8> {
    blake2_256_hash(message_encoding(m))
}

impl MessageWithTopic {
    /// The SCALE encoding of the message: its topic, then its data.
    pub fn encode(&self) -> (r: Vec<u8>)
        requires
            encodable(self@),
        ensures
            r@ == message_encoding(self@),
    {
        let mut out = scale_encode_bytes(&self.topic);
        let mut data = scale_encode_bytes(&self.message);
        out.append(&mut data);
        out
    }

    /// The hash of the message.
    pub fn hash(&self) -> (r: Vec<u8>)
        requires
            encodable(self@),
        ensures
            r@ == message_hash(self@),
            r@.len() == 32,
    {
        let encoded = self.encode();
        blake2_hash(&encoded)
    }
}

/// Model of a [`PPMsg`].
pub enum PPMsgView {
    PushHash(Seq<u8>),
    PullData(Seq<u8>),
    PushData(Seq<u8>, MessageView),
}

/// A message of the push/pull exchange.
#[derive(Debug, PartialEq, Eq)]
pub enum PPMsg {
    /// Announces the hash of a message.
    PushHash(Vec<u8>),
    /// Asks for the message of a hash.
    PullData(Vec<u8>),
    /// Carries a message with its hash.
    PushData(Vec<u8>, MessageWithTopic),
}

impl View for PPMsg {
    type V = PPMsgView;

    open spec fn view(&self) -> PPMsgView {
        match self {
            PPMsg::PushHash(h) => PPMsgView::PushHash(h@),
            PPMsg::PullData(h) => PPMsgView::PullData(h@),
            PPMsg::PushData(h, m) => PPMsgView::PushData(h@, m@),
        }
    }
}

impl Clone for PPMsg {
    fn clone(&self) -> (r: Self)
        ensures
            r@ == self@,
    {
        match self {
            PPMsg::PushHash(h) => PPMsg::PushHash(copy_bytes(h)),
            PPMsg::PullData(h) => PPMsg::PullData(copy_bytes(h)),
            PPMsg::PushData(h, m) => PPMsg::PushData(copy_bytes(h), m.clone()),
        }
    }
}

/// Model of an [`Outgoing`] notification.
pub struct OutgoingView {
    pub to: Seq<u8>,
    pub engine_id: [u8; 4],
    pub message: PPMsgView,
}

/// A notification to write to a peer: the protocol id carries the command in its
/// first byte.
#[derive(Debug, PartialEq, Eq)]
pub struct Outgoing {
    pub to: Vec<u8>,
    pub engine_id: [u8; 4],
    pub message: PPMsg,
}

impl View for Outgoing {
    type V = OutgoingView;

    open spec fn view(&self) -> OutgoingView {
        OutgoingView { to: self.to@, engine_id: self.engine_id, message: self.message@ }
    }
}

/// Model of an [`EngineAction`].
pub enum ActionView {
    Notify(OutgoingView),
    Deliver { sender: Seq<u8>, topic: Seq<u8>, message: Seq<u8> },
}

/// What the engine asks its caller to do.
#[derive(Debug, PartialEq, Eq)]
pub enum EngineAction {
    /// Write a notification to a peer.
    Notify(Outgoing),
    /// Hand a message received from `sender` to the subscribers of `topic`.
    Deliver { sender: Vec<u8>, topic: Vec<u8>, message: Vec<u8> },
}

impl View for EngineAction {
    type V = ActionView;

    open spec fn view(&self) -> ActionView {
        match self {
            EngineAction::Notify(o) => ActionView::Notify(o@),
            EngineAction::Deliver { sender, topic, message } => ActionView::Deliver {
                sender: sender@,
                topic: topic@,
                message: message@,
            },
        }
    }
}

/// The models of a vector of notifications.
pub open spec fn outgoing_view(v: Vec<Outgoing>) -> Seq<OutgoingView> {
    Seq::new(v@.len(), |i: int| v@[i]@)
}

/// The models of a vector of actions.
pub open spec fn actions_view(v: Vec<EngineAction>) -> Seq<ActionView> {
    Seq::new(v@.len(), |i: int| v@[i]@)
}

/// What the engine knows of a peer supporting the exchange.
pub struct PeerConsensus {
    /// Hashes of the messages the peer is known to have.
    pub known_messages: Vec<Vec<u8>>,
    /// The roles the peer announced.
    pub roles: u8,
}

/// Model of a [`TransPPEngine`].
pub struct EngineView {
    /// Registered peers and their roles.
    pub peers: Map<Seq<u8>, u8>,
    /// Messages held for pulling, by hash.
    pub pending: Map<Seq<u8>, MessageView>,
    /// The hashes of the kept messages, from the least to the most recently used.
    pub pending_order: Seq<Seq<u8>>,
    /// Hashes of messages received.
    pub received: Map<Seq<u8>, ()>,
}

/// The push/pull engine: registered peers, long messages kept for pulling, and the
/// hashes of messages received.
pub struct TransPPEngine {
    peers: Vec<(Vec<u8>, PeerConsensus)>,
    pending_messages: MessageCache,
    received_messages: ReceivedCache,
}

/// The peers of a list of registrations, with their roles (a later registration of
/// the same peer wins).
pub open spec fn peers_map(s: Seq<(Vec<u8>, PeerConsensus)>) -> Map<Seq<u8>, u8>
    decreases s.len(),
{
    if s.len() == 0 {
        Map::empty()
    } else {
        peers_map(s.drop_last()).insert(s.last().0@, s.last().1.roles)
    }
}

/// No peer is registered twice.
pub open spec fn distinct_peers(s: Seq<(Vec<u8>, PeerConsensus)>) -> bool {
    forall|i: int, j: int|
        0 <= i < s.len() && 0 <= j < s.len() && i != j ==> (#[trigger] s[i]).0@ != (#[trigger] s[j]).0@
}

/// The command under which a message travels.
pub open spec fn command_of(m: PPMsgView) -> u8 {
    match m {
        PPMsgView::PushHash(_) => PUSH_HASH,
        PPMsgView::PullData(_) => PULL_DATA,
        PPMsgView::PushData(_, _) => PUSH_DATA,
    }
}

/// The notification that sends `m` to `to`.
pub open spec fn notification(to: Seq<u8>, m: PPMsgView) -> OutgoingView {
    OutgoingView { to, engine_id: [command_of(m), 0, 0, 0], message: m }
}

/// The notifications sending `m` to those of `targets` that are registered, in order.
pub open spec fn notifications(targets: Seq<Seq<u8>>, peers: Map<Seq<u8>, u8>, m: PPMsgView) -> Seq<
    OutgoingView,
>
    decreases targets.len(),
{
    if targets.len() == 0 {
        Seq::empty()
    } else {
        let rest = notifications(targets.drop_last(), peers, m);
        if peers.contains_key(targets.last()) {
            rest.push(notification(targets.last(), m))
        } else {
            rest
        }
    }
}

/// The message that `send_message` pushes for `m`: the hash alone when the data is
/// longer than `MAX_DIRECT_PUSH_SIZE`, else the hash with the data.
pub open spec fn push_for(m: MessageView) -> PPMsgView {
    if m.message.len() > MAX_DIRECT_PUSH_SIZE {
        PPMsgView::PushHash(message_hash(m))
    } else {
        PPMsgView::PushData(message_hash(m), m)
    }
}

/// The answer to one incoming message from a registered peer `who`: a pull for an
/// announced hash not received yet, a delivery for pushed data not received yet, the
/// data for a pulled hash that is kept.
pub open spec fn answer(st: EngineView, who: Seq<u8>, m: PPMsgView) -> Seq<ActionView> {
    match m {
        PPMsgView::PushHash(h) => if st.received.contains_key(h) {
            Seq::empty()
        } else {
            seq![ActionView::Notify(notification(who, PPMsgView::PullData(h)))]
        },
        PPMsgView::PushData(h, data) => if st.received.contains_key(h) {
            Seq::empty()
        } else {
            seq![ActionView::Deliver { sender: who, topic: data.topic, message: data.message }]
        },
        PPMsgView::PullData(h) => if st.pending.contains_key(h) {
            seq![ActionView::Notify(notification(who, PPMsgView::PushData(h, st.pending[h])))]
        } else {
            Seq::empty()
        },
    }
}

/// `t` and `acts` are `s` after one message `m` from a registered peer `who`: the
/// actions are [`answer`]; the hash of pushed data not received yet is recorded as
/// received; a pulled message that is kept becomes the most recently used.
pub open spec fn message_taken(s: EngineView, t: EngineView, who: Seq<u8>, m: PPMsgView, acts: Seq<ActionView>) -> bool {
    &&& acts == answer(s, who, m)
    &&& match m {
        PPMsgView::PushData(h, _) => if s.received.contains_key(h) {
            t == s
        } else {
            &&& put_result(s.received, t.received, KNOWN_MESSAGES_CACHE_SIZE as nat, h, ())
            &&& t == EngineView { received: t.received, ..s }
        },
        PPMsgView::PullData(h) => t == EngineView { pending_order: pulled_order(s, h), ..s },
        _ => t == s,
    }
}

/// The recency order of the kept messages after a pull of `h`: a kept message that is
/// pulled becomes the most recently used.
pub open spec fn pulled_order(s: EngineView, h: Seq<u8>) -> Seq<Seq<u8>> {
    if s.pending.contains_key(h) {
        lru_used(s.pending_order, h, MAX_PENDING_DATA as nat)
    } else {
        s.pending_order
    }
}

/// `t` and `acts` are `s` after the messages `ms` from a registered peer `who`, taken
/// in turn (see [`message_taken`]).
pub open spec fn messages_taken(s: EngineView, t: EngineView, who: Seq<u8>, ms: Seq<PPMsgView>, acts: Seq<ActionView>) -> bool
    decreases ms.len(),
{
    if ms.len() == 0 {
        t == s && acts.len() == 0
    } else {
        exists|mid: EngineView, k: int|
            #![trigger message_taken(mid, t, who, ms.last(), acts.skip(k))]
            0 <= k <= acts.len() && messages_taken(s, mid, who, ms.drop_last(), acts.take(k)) && message_taken(
                mid,
                t,
                who,
                ms.last(),
                acts.skip(k),
            )
    }
}

/// `t` and `acts` are `s` after the messages `ms` came from `who`: discarded when
/// `who` is not registered, else taken in turn (see [`messages_taken`]).
pub open spec fn incoming_handled(s: EngineView, t: EngineView, who: Seq<u8>, ms: Seq<PPMsgView>, acts: Seq<ActionView>) -> bool {
    if s.peers.contains_key(who) {
        messages_taken(s, t, who, ms, acts)
    } else {
        t == s && acts.len() == 0
    }
}

impl View for TransPPEngine {
    type V = EngineView;

    closed spec fn view(&self) -> EngineView {
        EngineView {
            peers: peers_map(self.peers@),
            pending: message_cache_entries(self.pending_messages).map_values(|m: MessageWithTopic| m@),
            pending_order: message_cache_order(self.pending_messages),
            received: received_cache_entries(self.received_messages),
        }
    }
}


proof fn lemma_peers_distinct(s: Seq<(Vec<u8>, PeerConsensus)>)
    requires
        distinct_peers(s),
    ensures
        forall|j: int|
            0 <= j < s.len() ==> #[trigger] peers_map(s).contains_key(s[j].0@) && peers_map(s)[s[j].0@] == s[j].1.roles,
        forall|n: Seq<u8>| #[trigger] peers_map(s).contains_key(n) ==> exists|j: int| 0 <= j < s.len() && s[j].0@ == n,
    decreases s.len(),
{
    if s.len() > 0 {
        let t = s.drop_last();
        assert forall|i: int, j: int| 0 <= i < t.len() && 0 <= j < t.len() && i != j implies (#[trigger] t[i]).0@
            != (#[trigger] t[j]).0@ by {
            assert(t[i] == s[i] && t[j] == s[j]);
        }
        lemma_peers_distinct(t);
        assert forall|j: int| 0 <= j < s.len() implies #[trigger] peers_map(s).contains_key(s[j].0@) && peers_map(
            s,
        )[s[j].0@] == s[j].1.roles by {
            if j < s.len() - 1 {
                assert(t[j] == s[j]);
                assert(peers_map(t).contains_key(t[j].0@));
                assert(s[j].0@ != s[s.len() - 1].0@);
            }
        }
        assert forall|n: Seq<u8>| #[trigger] peers_map(s).contains_key(n) implies exists|j: int|
            0 <= j < s.len() && s[j].0@ == n by {
            if n != s.last().0@ {
                assert(peers_map(t).contains_key(n));
                let j = choose|j: int| 0 <= j < t.len() && t[j].0@ == n;
                assert(s[j] == t[j]);
            } else {
                assert(s[s.len() - 1].0@ == n);
            }
        }
    }
}

proof fn lemma_peers_update(s: Seq<(Vec<u8>, PeerConsensus)>, p: int, e: (Vec<u8>, PeerConsensus))
    requires
        distinct_peers(s),
        0 <= p < s.len(),
        e.0@ == s[p].0@,
    ensures
        peers_map(s.update(p, e)) == peers_map(s).insert(e.0@, e.1.roles),
    decreases s.len(),
{
    let u = s.update(p, e);
    if p == s.len() - 1 {
        assert(u.drop_last() =~= s.drop_last());
        assert(peers_map(u) =~= peers_map(s).insert(e.0@, e.1.roles));
    } else {
        let t = s.drop_last();
        assert forall|i: int, j: int| 0 <= i < t.len() && 0 <= j < t.len() && i != j implies (#[trigger] t[i]).0@
            != (#[trigger] t[j]).0@ by {
            assert(t[i] == s[i] && t[j] == s[j]);
        }
        lemma_peers_update(t, p, e);
        assert(u.drop_last() =~= t.update(p, e));
        assert(s.last().0@ != s[p].0@);
        assert(peers_map(u) =~= peers_map(s).insert(e.0@, e.1.roles));
    }
}

proof fn lemma_peers_remove(s: Seq<(Vec<u8>, PeerConsensus)>, p: int)
    requires
        distinct_peers(s),
        0 <= p < s.len(),
    ensures
        peers_map(s.remove(p)) == peers_map(s).remove(s[p].0@),
        distinct_peers(s.remove(p)),
    decreases s.len(),
{
    let r = s.remove(p);
    assert forall|i: int, j: int| 0 <= i < r.len() && 0 <= j < r.len() && i != j implies (#[trigger] r[i]).0@
        != (#[trigger] r[j]).0@ by {
        let oi = if i < p { i } else { i + 1 };
        let oj = if j < p { j } else { j + 1 };
        assert(r[i] == s[oi] && r[j] == s[oj]);
    }
    if p == s.len() - 1 {
        assert(r =~= s.drop_last());
        lemma_peers_distinct(s);
        let t = s.drop_last();
        assert forall|i: int, j: int| 0 <= i < t.len() && 0 <= j < t.len() && i != j implies (#[trigger] t[i]).0@
            != (#[trigger] t[j]).0@ by {
            assert(t[i] == s[i] && t[j] == s[j]);
        }
        lemma_peers_distinct(t);
        assert forall|n: Seq<u8>| peers_map(t).contains_key(n) implies n != s[p].0@ by {
            let j = choose|j: int| 0 <= j < t.len() && t[j].0@ == n;
            assert(t[j] == s[j]);
        }
        assert(peers_map(r) =~= peers_map(s).remove(s[p].0@));
    } else {
        let t = s.drop_last();
        assert forall|i: int, j: int| 0 <= i < t.len() && 0 <= j < t.len() && i != j implies (#[trigger] t[i]).0@
            != (#[trigger] t[j]).0@ by {
            assert(t[i] == s[i] && t[j] == s[j]);
        }
        lemma_peers_remove(t, p);
        assert(r.drop_last() =~= t.remove(p));
        assert(r.last() == s.last());
        assert(s.last().0@ != s[p].0@);
        assert(peers_map(r) =~= peers_map(s).remove(s[p].0@));
    }
}

/// Position of a peer among the registrations, if registered.
fn find_peer(peers: &Vec<(Vec<u8>, PeerConsensus)>, who: &Vec<u8>) -> (r: Option<usize>)
    ensures
        match r {
            Some(i) => i < peers@.len() && peers@[i as int].0@ == who@,
            None => forall|j: int| 0 <= j < peers@.len() ==> (#[trigger] peers@[j]).0@ != who@,
        },
{
    let mut i: usize = 0;
    while i < peers.len()
        invariant
            0 <= i <= peers@.len(),
            forall|j: int| 0 <= j < i ==> (#[trigger] peers@[j]).0@ != who@,
        decreases peers@.len() - i,
    {
        if bytes_equal(&peers[i].0, who) {
            return Some(i);
        }
        i = i + 1;
    }
    None
}

impl TransPPEngine {
    /// Each peer is registered once; the caches keep their capacities and bounds.
    pub closed spec fn wf(self) -> bool {
        &&& distinct_peers(self.peers@)
        &&& message_cache_cap(self.pending_messages) == MAX_PENDING_DATA
        &&& bounded(message_cache_entries(self.pending_messages), message_cache_cap(self.pending_messages))
        &&& lru_consistent(message_cache_entries(self.pending_messages), message_cache_order(self.pending_messages))
        &&& received_cache_cap(self.received_messages) == KNOWN_MESSAGES_CACHE_SIZE
        &&& bounded(received_cache_entries(self.received_messages), received_cache_cap(self.received_messages))
    }

    /// An engine with no peer, no kept message and no received hash.
    pub fn new() -> (e: Self)
        ensures
            e.wf(),
            e@.peers.is_empty(),
            e@.pending.is_empty(),
            e@.pending_order.len() == 0,
            e@.received.is_empty(),
    {
        let e = TransPPEngine {
            peers: Vec::new(),
            pending_messages: message_cache_new(MAX_PENDING_DATA),
            received_messages: received_cache_new(KNOWN_MESSAGES_CACHE_SIZE),
        };
        assert(e@.peers =~= Map::<Seq<u8>, u8>::empty());
        assert(e@.pending =~= Map::<Seq<u8>, MessageView>::empty());
        assert(message_cache_order(e.pending_messages).to_set() =~= Set::<Seq<u8>>::empty());
        assert(e@.received =~= Map::<Seq<u8>, ()>::empty());
        e
    }

    /// Registers a peer supporting the exchange, with the roles it announced (a
    /// registered peer is registered afresh).
    pub fn new_peer(&mut self, who: Vec<u8>, roles: u8)
        requires
            old(self).wf(),
        ensures
            final(self).wf(),
            final(self)@ == (EngineView { peers: old(self)@.peers.insert(who@, roles), ..old(self)@ }),
    {
        let ghost s0 = self.peers@;
        let entry = (who, PeerConsensus { known_messages: Vec::new(), roles });
        match find_peer(&self.peers, &entry.0) {
            Some(i) => {
                self.peers.set(i, entry);
                proof {
                    lemma_peers_update(s0, i as int, self.peers@[i as int]);
                    assert(self.peers@ =~= s0.update(i as int, self.peers@[i as int]));
                    assert forall|a: int, b: int| 0 <= a < self.peers@.len() && 0 <= b < self.peers@.len() && a != b
                        implies (#[trigger] self.peers@[a]).0@ != (#[trigger] self.peers@[b]).0@ by {
                        assert(s0[a].0@ == self.peers@[a].0@ && s0[b].0@ == self.peers@[b].0@);
                    }
                }
            },
            None => {
                self.peers.push(entry);
                proof {
                    assert(self.peers@.drop_last() =~= s0);
                    assert forall|a: int, b: int| 0 <= a < self.peers@.len() && 0 <= b < self.peers@.len() && a != b
                        implies (#[trigger] self.peers@[a]).0@ != (#[trigger] self.peers@[b]).0@ by {
                        if a < s0.len() {
                            assert(s0[a] == self.peers@[a]);
                        }
                        if b < s0.len() {
                            assert(s0[b] == self.peers@[b]);
                        }
                    }
                }
            },
        }
        assert(self@.peers =~= old(self)@.peers.insert(who@, roles));
    }

    /// Stops tracking a disconnected peer.
    pub fn peer_disconnected(&mut self, who: &Vec<u8>)
        requires
            old(self).wf(),
        ensures
            final(self).wf(),
            final(self)@ == (EngineView { peers: old(self)@.peers.remove(who@), ..old(self)@ }),
    {
        let ghost s0 = self.peers@;
        match find_peer(&self.peers, who) {
            Some(i) => {
                self.peers.remove(i);
                proof {
                    lemma_peers_remove(s0, i as int);
                }
            },
            None => {
                proof {
                    lemma_peers_distinct(s0);
                    assert(!peers_map(s0).contains_key(who@)) by {
                        if peers_map(s0).contains_key(who@) {
                            let j = choose|j: int| 0 <= j < s0.len() && s0[j].0@ == who@;
                            assert(s0[j].0@ != who@);
                        }
                    }
                    assert(peers_map(s0).remove(who@) =~= peers_map(s0));
                }
            },
        }
    }

    /// Whether a peer is registered.
    pub fn is_registered(&self, who: &Vec<u8>) -> (r: bool)
        requires
            self.wf(),
        ensures
            r == self@.peers.contains_key(who@),
    {
        proof {
            lemma_peers_distinct(self.peers@);
        }
        match find_peer(&self.peers, who) {
            Some(i) => {
                assert(self@.peers.contains_key(self.peers@[i as int].0@));
                true
            },
            None => {
                proof {
                    if self@.peers.contains_key(who@) {
                        let j = choose|j: int| 0 <= j < self.peers@.len() && self.peers@[j].0@ == who@;
                        assert(self.peers@[j].0@ != who@);
                    }
                }
                false
            },
        }
    }

    /// The notification that sends `message` to `who` under command `cmd`.
    fn do_send_message(who: &Vec<u8>, cmd: u8, message: PPMsg) -> (r: Outgoing)
        requires
            cmd == command_of(message@),
        ensures
            r@ == notification(who@, message@),
    {
        let to_cmd: [u8; 4] = [cmd, 0, 0, 0];
        Outgoing { to: copy_bytes(who), engine_id: to_cmd, message }
    }

    /// Pushes a message to those of `peers` that are registered: a message longer
    /// than `MAX_DIRECT_PUSH_SIZE` is announced by its hash only, a shorter one is
    /// pushed with its hash. The message is not kept or multicast later on.
    pub fn send_message(&mut self, peers: Vec<Vec<u8>>, message: MessageWithTopic) -> (r: Vec<Outgoing>)
        requires
            old(self).wf(),
            encodable(message@),
        ensures
            final(self).wf(),
            final(self)@ == old(self)@,
            outgoing_view(r) == notifications(keys_view(peers), old(self)@.peers, push_for(message@)),
    {
        let ghost m = message@;
        let hash = message.hash();
        let msg_to_send: PPMsg;
        let cmd: u8;
        if message.message.len() > MAX_DIRECT_PUSH_SIZE {
            msg_to_send = PPMsg::PushHash(hash);
            cmd = PUSH_HASH;
        } else {
            msg_to_send = PPMsg::PushData(hash, message);
            cmd = PUSH_DATA;
        }
        assert(msg_to_send@ == push_for(m));
        let ghost targets = keys_view(peers);
        let mut out: Vec<Outgoing> = Vec::new();
        let mut i: usize = 0;
        assert(targets.take(0) =~= Seq::<Seq<u8>>::empty());
        while i < peers.len()
            invariant
                self.wf(),
                self@ == old(self)@,
                targets == keys_view(peers),
                cmd == command_of(msg_to_send@),
                msg_to_send@ == push_for(m),
                0 <= i <= targets.len(),
                outgoing_view(out) == notifications(targets.take(i as int), old(self)@.peers, push_for(m)),
            decreases targets.len() - i,
        {
            let ghost before = outgoing_view(out);
            proof {
                assert(targets.take(i + 1).drop_last() =~= targets.take(i as int));
                assert(targets.take(i + 1).last() == peers@[i as int]@);
            }
            if self.is_registered(&peers[i]) {
                let o = Self::do_send_message(&peers[i], cmd, msg_to_send.clone());
                out.push(o);
                assert(outgoing_view(out) =~= before.push(notification(peers@[i as int]@, push_for(m))));
            }
            i = i + 1;
        }
        assert(targets.take(targets.len() as int) =~= targets);
        out
    }

    /// The answer to an announced hash: a pull when no message of that hash has been
    /// received.
    fn response_push_hash(&mut self, incoming_peer: &Vec<u8>, hash: &Vec<u8>) -> (r: Option<Outgoing>)
        ensures
            final(self)@ == old(self)@,
            final(self).wf() == old(self).wf(),
            match r {
                Some(o) => !old(self)@.received.contains_key(hash@) && o@ == notification(
                    incoming_peer@,
                    PPMsgView::PullData(hash@),
                ),
                None => old(self)@.received.contains_key(hash@),
            },
    {
        if !received_cache_get(&mut self.received_messages, hash) {
            Some(Self::do_send_message(incoming_peer, PULL_DATA, PPMsg::PullData(copy_bytes(hash))))
        } else {
            None
        }
    }

    /// The answer to a pull: the kept message of that hash, if any.
    fn respone_pull_data(&mut self, incoming_peer: &Vec<u8>, hash: &Vec<u8>) -> (r: Option<Outgoing>)
        requires
            old(self).wf(),
        ensures
            final(self)@ == (EngineView { pending_order: pulled_order(old(self)@, hash@), ..old(self)@ }),
            final(self).wf(),
            match r {
                Some(o) => old(self)@.pending.contains_key(hash@) && o@ == notification(
                    incoming_peer@,
                    PPMsgView::PushData(hash@, old(self)@.pending[hash@]),
                ),
                None => !old(self)@.pending.contains_key(hash@),
            },
    {
        match message_cache_get(&mut self.pending_messages, hash) {
            Some(msg_with_topic) => {
                Some(Self::do_send_message(incoming_peer, PUSH_DATA, PPMsg::PushData(copy_bytes(hash), msg_with_topic)))
            },
            None => None,
        }
    }

    /// Handles the messages received from `who`, in order, discarding them all when
    /// `who` is not registered: an announced hash not received yet is pulled; pushed
    /// data not received yet is handed to the subscribers of its topic and its hash
    /// recorded as received, pushed data received before is discarded; a pulled hash
    /// is answered with its kept message.
    pub fn on_incoming(&mut self, who: Vec<u8>, messages: Vec<PPMsg>) -> (r: Vec<EngineAction>)
        requires
            old(self).wf(),
        ensures
            final(self).wf(),
            incoming_handled(
                old(self)@,
                final(self)@,
                who@,
                Seq::new(messages@.len(), |i: int| messages@[i]@),
                actions_view(r),
            ),
    {
        let ghost ms = Seq::new(messages@.len(), |i: int| messages@[i]@);
        let ghost st = self@;
        let mut out: Vec<EngineAction> = Vec::new();
        if !self.is_registered(&who) {
            assert(actions_view(out).len() == 0);
            return out;
        }
        let mut i: usize = 0;
        assert(ms.take(0) =~= Seq::<PPMsgView>::empty());
        assert(actions_view(out) =~= Seq::<ActionView>::empty());
        while i < messages.len()
            invariant
                self.wf(),
                ms == Seq::new(messages@.len(), |i: int| messages@[i]@),
                0 <= i <= ms.len(),
                messages_taken(st, self@, who@, ms.take(i as int), actions_view(out)),
            decreases ms.len() - i,
        {
            let ghost before = actions_view(out);
            let ghost mid = self@;
            let ghost k = before.len() as int;
            proof {
                assert(ms.take(i + 1).drop_last() =~= ms.take(i as int));
                assert(ms.take(i + 1).last() == messages@[i as int]@);
            }
            match &messages[i] {
                PPMsg::PushHash(data) => {
                    match self.response_push_hash(&who, data) {
                        Some(o) => {
                            out.push(EngineAction::Notify(o));
                        },
                        None => {},
                    }
                },
                PPMsg::PushData(hash, data) => {
                    if !received_cache_get(&mut self.received_messages, hash) {
                        assert(self@ == mid);
                        received_cache_put(&mut self.received_messages, copy_bytes(hash));
                        out.push(
                            EngineAction::Deliver {
                                sender: copy_bytes(&who),
                                topic: copy_bytes(&data.topic),
                                message: copy_bytes(&data.message),
                            },
                        );
                    } else {
                        assert(self@ == mid);
                    }
                },
                PPMsg::PullData(data) => {
                    match self.respone_pull_data(&who, data) {
                        Some(o) => {
                            out.push(EngineAction::Notify(o));
                        },
                        None => {},
                    }
                },
            }
            proof {
                assert(actions_view(out).take(k) =~= before);
                assert(actions_view(out).skip(k) =~= answer(mid, who@, ms[i as int]));
                assert(message_taken(mid, self@, who@, ms.take(i + 1).last(), actions_view(out).skip(k)));
                assert(messages_taken(st, mid, who@, ms.take(i + 1).drop_last(), actions_view(out).take(k)));
            }
            i = i + 1;
        }
        assert(ms.take(ms.len() as int) =~= ms);
        out
    }
}


/// Pushed data from a registered peer is handed to the subscribers of its topic once:
/// the first time it arrives it is delivered and its hash recorded, so that the same
/// data arriving again is discarded and its hash is not pulled.
pub proof fn lemma_pushed_data_is_delivered_once(
    s: EngineView,
    t: EngineView,
    who: Seq<u8>,
    h: Seq<u8>,
    m: MessageView,
    acts: Seq<ActionView>,
    who2: Seq<u8>,
)
    requires
        !s.received.contains_key(h),
        message_taken(s, t, who, PPMsgView::PushData(h, m), acts),
    ensures
        acts == seq![ActionView::Deliver { sender: who, topic: m.topic, message: m.message }],
        answer(t, who2, PPMsgView::PushData(h, m)).len() == 0,
        answer(t, who2, PPMsgView::PushHash(h)).len() == 0,
{
    crate::lru_cache::lemma_put_result_holds(s.received, t.received, KNOWN_MESSAGES_CACHE_SIZE as nat, h, ());
}

/// `m` announces or pushes the message of hash `h`.
pub open spec fn about_hash(m: PPMsgView, h: Seq<u8>) -> bool {
    match m {
        PPMsgView::PushHash(x) => x == h,
        PPMsgView::PushData(x, _) => x == h,
        PPMsgView::PullData(_) => false,
    }
}

/// Once pushed data has been received, every later push of it is discarded and its
/// hash is not pulled again: a later batch of messages that all announce or push that
/// hash, from any peer, calls for no action and changes nothing.
pub proof fn lemma_received_data_stays_discarded(
    s: EngineView,
    t: EngineView,
    who: Seq<u8>,
    h: Seq<u8>,
    m: MessageView,
    acts: Seq<ActionView>,
    u: EngineView,
    who2: Seq<u8>,
    ms: Seq<PPMsgView>,
    acts2: Seq<ActionView>,
)
    requires
        s.peers.contains_key(who),
        incoming_handled(s, t, who, seq![PPMsgView::PushData(h, m)], acts),
        incoming_handled(t, u, who2, ms, acts2),
        forall|i: int| 0 <= i < ms.len() ==> about_hash(#[trigger] ms[i], h),
    ensures
        t.received.contains_key(h),
        u == t,
        acts2.len() == 0,
{
    let one = seq![PPMsgView::PushData(h, m)];
    assert(messages_taken(s, t, who, one, acts));
    assert(exists|mid: EngineView, k: int|
        #![trigger message_taken(mid, t, who, one.last(), acts.skip(k))]
        0 <= k <= acts.len() && messages_taken(s, mid, who, one.drop_last(), acts.take(k)) && message_taken(
            mid,
            t,
            who,
            one.last(),
            acts.skip(k),
        ));
    let (mid, k) = choose|mid: EngineView, k: int|
        0 <= k <= acts.len() && messages_taken(s, mid, who, one.drop_last(), acts.take(k)) && message_taken(
            mid,
            t,
            who,
            one.last(),
            acts.skip(k),
        );
    assert(one.drop_last().len() == 0);
    assert(mid == s);
    if !s.received.contains_key(h) {
        crate::lru_cache::lemma_put_result_holds(s.received, t.received, KNOWN_MESSAGES_CACHE_SIZE as nat, h, ());
    }
    if t.peers.contains_key(who2) {
        lemma_known_hash_dropped(t, u, who2, ms, acts2, h);
    }
}

/// While `h` is recorded as received, messages that announce or push it are dropped.
proof fn lemma_known_hash_dropped(
    st: EngineView,
    u: EngineView,
    who: Seq<u8>,
    ms: Seq<PPMsgView>,
    acts: Seq<ActionView>,
    h: Seq<u8>,
)
    requires
        st.received.contains_key(h),
        messages_taken(st, u, who, ms, acts),
        forall|i: int| 0 <= i < ms.len() ==> about_hash(#[trigger] ms[i], h),
    ensures
        u == st,
        acts.len() == 0,
    decreases ms.len(),
{
    if ms.len() > 0 {
        assert(exists|mid: EngineView, k: int|
            #![trigger message_taken(mid, u, who, ms.last(), acts.skip(k))]
            0 <= k <= acts.len() && messages_taken(st, mid, who, ms.drop_last(), acts.take(k)) && message_taken(
                mid,
                u,
                who,
                ms.last(),
                acts.skip(k),
            ));
        let (mid, k) = choose|mid: EngineView, k: int|
            0 <= k <= acts.len() && messages_taken(st, mid, who, ms.drop_last(), acts.take(k)) && message_taken(
                mid,
                u,
                who,
                ms.last(),
                acts.skip(k),
            );
        assert forall|i: int| 0 <= i < ms.drop_last().len() implies about_hash(#[trigger] ms.drop_last()[i], h) by {
            assert(ms.drop_last()[i] == ms[i]);
        }
        lemma_known_hash_dropped(st, mid, who, ms.drop_last(), acts.take(k), h);
        assert(about_hash(ms[ms.len() - 1], h));
        assert(acts.take(k).len() == 0);
        assert(answer(mid, who, ms.last()).len() == 0);
        assert(acts.skip(k).len() == 0);
    }
}

/// A pulled hash whose message is listed among the kept ones is answered with it.
pub proof fn lemma_listed_message_is_answered(st: EngineView, h: Seq<u8>, who: Seq<u8>)
    requires
        st.pending_order.to_set() == st.pending.dom(),
        st.pending_order.contains(h),
    ensures
        st.pending.contains_key(h),
        answer(st, who, PPMsgView::PullData(h)) == seq![
            ActionView::Notify(notification(who, PPMsgView::PushData(h, st.pending[h]))),
        ],
{
    assert(st.pending_order.to_set().contains(h));
}

impl TransPPEngine {
    /// The recency order lists each kept message once, and at most `MAX_PENDING_DATA`
    /// messages are kept.
    pub proof fn lemma_pending_order(&self)
        requires
            self.wf(),
        ensures
            self@.pending_order.no_duplicates(),
            self@.pending_order.to_set() == self@.pending.dom(),
            self@.pending_order.len() <= MAX_PENDING_DATA,
    {
        assert(self@.pending.dom() =~= message_cache_entries(self.pending_messages).dom());
    }
}

/// Messages from a peer that is not registered are discarded.
pub proof fn lemma_unregistered_discarded(s: EngineView, t: EngineView, who: Seq<u8>, ms: Seq<PPMsgView>, acts: Seq<ActionView>)
    requires
        incoming_handled(s, t, who, ms, acts),
        !s.peers.contains_key(who),
    ensures
        t == s,
        acts.len() == 0,
{
}

} // verus!
