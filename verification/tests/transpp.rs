use pnyx_transp2p::transpp::TransPPEngine;

#[test]
fn peer_is_removed_on_disconnect() {
    let mut consensus = TransPPEngine::new();
    let peer_id = vec![0u8, 32, 1, 2, 3, 4, 5, 6];
    // Roles::FULL
    consensus.new_peer(peer_id.clone(), 1);
    assert!(consensus.is_registered(&peer_id));
    consensus.peer_disconnected(&peer_id);
    assert!(!consensus.is_registered(&peer_id));
}

use pnyx_transp2p::transpp::{EngineAction, MessageWithTopic, Outgoing, PPMsg};

fn small_message() -> MessageWithTopic {
    MessageWithTopic { topic: vec![1, 2, 3], message: vec![4, 5, 6] }
}

const SMALL_HASH: [u8; 32] = [
    224, 93, 207, 46, 90, 189, 206, 185, 88, 82, 237, 173, 166, 184, 34, 157, 237, 182, 48, 159, 10, 94, 216,
    217, 0, 41, 72, 203, 152, 36, 102, 126,
];

const BIG_HASH: [u8; 32] = [
    93, 193, 210, 173, 130, 6, 183, 62, 64, 226, 206, 184, 211, 239, 56, 20, 149, 90, 105, 92, 209, 191, 41, 230,
    62, 155, 117, 102, 109, 53, 215, 29,
];

#[test]
fn message_encoding_and_hash() {
    let m = small_message();
    assert_eq!(m.encode(), vec![0x0c, 1, 2, 3, 0x0c, 4, 5, 6]);
    assert_eq!(m.hash(), SMALL_HASH.to_vec());
}

#[test]
fn short_message_is_pushed_with_data_to_registered_peers_only() {
    let mut e = TransPPEngine::new();
    let p1 = vec![1u8; 8];
    let p2 = vec![2u8; 8];
    e.new_peer(p1.clone(), 1);
    let out = e.send_message(vec![p1.clone(), p2.clone()], small_message());
    assert_eq!(
        out,
        vec![Outgoing {
            to: p1.clone(),
            engine_id: [3, 0, 0, 0],
            message: PPMsg::PushData(SMALL_HASH.to_vec(), small_message())
        }]
    );
    // A short message is not kept: a pull for it gets no answer.
    let acts = e.on_incoming(p1.clone(), vec![PPMsg::PullData(SMALL_HASH.to_vec())]);
    assert!(acts.is_empty());
}

#[test]
fn long_message_is_announced_by_hash_and_not_kept() {
    let mut e = TransPPEngine::new();
    let p1 = vec![1u8; 8];
    e.new_peer(p1.clone(), 4);
    let big = MessageWithTopic { topic: vec![9], message: vec![7u8; 300] };
    let out = e.send_message(vec![p1.clone(), p1.clone()], big.clone());
    assert_eq!(out.len(), 2);
    assert_eq!(out[0].engine_id, [1, 0, 0, 0]);
    assert_eq!(out[0].message, PPMsg::PushHash(BIG_HASH.to_vec()));
    // The message is not kept: a pull of its hash gets no answer.
    let acts = e.on_incoming(p1.clone(), vec![PPMsg::PullData(BIG_HASH.to_vec())]);
    assert!(acts.is_empty());
}

#[test]
fn incoming_hash_is_pulled_and_data_is_delivered() {
    let mut e = TransPPEngine::new();
    let from = vec![8u8; 8];
    e.new_peer(from.clone(), 1);
    let acts = e.on_incoming(
        from.clone(),
        vec![PPMsg::PushHash(vec![5u8; 32]), PPMsg::PushData(vec![6u8; 32], small_message())],
    );
    assert_eq!(
        acts,
        vec![
            EngineAction::Notify(Outgoing {
                to: from.clone(),
                engine_id: [2, 0, 0, 0],
                message: PPMsg::PullData(vec![5u8; 32])
            }),
            EngineAction::Deliver { sender: from.clone(), topic: vec![1, 2, 3], message: vec![4, 5, 6] },
        ]
    );
}

#[test]
fn re_registering_a_peer_keeps_one_registration() {
    let mut e = TransPPEngine::new();
    let p = vec![3u8; 8];
    e.new_peer(p.clone(), 1);
    e.new_peer(p.clone(), 2);
    e.peer_disconnected(&p);
    assert!(!e.is_registered(&p));
}

#[test]
fn messages_from_unregistered_peers_are_discarded() {
    let mut e = TransPPEngine::new();
    let from = vec![8u8; 8];
    let acts = e.on_incoming(
        from.clone(),
        vec![PPMsg::PushHash(vec![5u8; 32]), PPMsg::PushData(vec![6u8; 32], small_message())],
    );
    assert!(acts.is_empty());
}

#[test]
fn data_received_before_is_discarded_and_not_pulled_again() {
    let mut e = TransPPEngine::new();
    let from = vec![8u8; 8];
    e.new_peer(from.clone(), 1);
    let acts = e.on_incoming(
        from.clone(),
        vec![PPMsg::PushData(vec![6u8; 32], small_message()), PPMsg::PushData(vec![6u8; 32], small_message())],
    );
    assert_eq!(acts, vec![EngineAction::Deliver { sender: from.clone(), topic: vec![1, 2, 3], message: vec![4, 5, 6] }]);
    assert!(e.on_incoming(from.clone(), vec![PPMsg::PushHash(vec![6u8; 32])]).is_empty());
}
