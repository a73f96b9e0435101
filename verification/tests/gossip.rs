use rustchain::node::{NetworkEvent, NodeState};
use rustchain::types::{Block, Transaction};
use rustchain::wire::{decode_message, encode_message, topic_for, WireMessage};

fn sample_block() -> Block {
    Block::new(
        3,
        1000,
        vec![Transaction {
            sender: String::from("Alice"),
            receiver: String::from("Bob"),
            amount: 4,
        }],
        String::from("prev"),
    )
}

#[test]
fn new_block_round_trips() {
    let m = WireMessage::NewBlock(sample_block());
    let bytes = encode_message(&m);
    assert_eq!(decode_message(&bytes), Some(m));
}

#[test]
fn new_transaction_round_trips() {
    let m = WireMessage::NewTransaction(Transaction {
        sender: String::from("A"),
        receiver: String::from("B"),
        amount: -9,
    });
    let bytes = encode_message(&m);
    assert_eq!(decode_message(&bytes), Some(m));
}

#[test]
fn chain_request_round_trips() {
    let m = WireMessage::ChainRequest;
    let bytes = encode_message(&m);
    assert_eq!(bytes.len(), 1);
    assert_eq!(decode_message(&bytes), Some(WireMessage::ChainRequest));
}

#[test]
fn chain_response_round_trips() {
    let m = WireMessage::ChainResponse(vec![sample_block(), sample_block()]);
    let bytes = encode_message(&m);
    assert_eq!(decode_message(&bytes), Some(m));
}

#[test]
fn malformed_payloads_decode_to_nothing() {
    assert_eq!(decode_message(&Vec::new()), None);
    assert_eq!(decode_message(&vec![9u8]), None);
    assert_eq!(decode_message(&vec![1u8, 2, 3]), None);
    assert_eq!(decode_message(&vec![0xffu8; 100]), None);
}

#[test]
fn trailing_bytes_are_rejected() {
    let mut bytes = encode_message(&WireMessage::ChainRequest);
    bytes.push(0);
    assert_eq!(decode_message(&bytes), None);
}

#[test]
fn topics() {
    assert_eq!(topic_for(&WireMessage::ChainRequest), "blocks");
    assert_eq!(topic_for(&WireMessage::NewBlock(sample_block())), "blocks");
    assert_eq!(
        topic_for(&WireMessage::NewTransaction(Transaction {
            sender: String::new(),
            receiver: String::new(),
            amount: 0,
        })),
        "transactions"
    );
}

#[test]
fn broadcasts_carry_decodable_payloads() {
    let node = NodeState::new();
    let (topic, bytes) = node.broadcast_block(sample_block());
    assert_eq!(topic, "blocks");
    assert_eq!(decode_message(&bytes), Some(WireMessage::NewBlock(sample_block())));
    let tx = Transaction {
        sender: String::from("A"),
        receiver: String::from("B"),
        amount: 1,
    };
    let (topic, bytes) = node.broadcast_transaction(tx.clone());
    assert_eq!(topic, "transactions");
    assert_eq!(decode_message(&bytes), Some(WireMessage::NewTransaction(tx)));
    let (topic, bytes) = node.request_blockchain();
    assert_eq!(topic, "blocks");
    assert_eq!(decode_message(&bytes), Some(WireMessage::ChainRequest));
}

#[test]
fn discovery_maintains_the_peer_set() {
    let mut node = NodeState::new();
    assert!(node.peers().is_empty());
    node.handle_event(NetworkEvent::PeerDiscovered {
        peer: String::from("peer-a"),
    });
    node.handle_event(NetworkEvent::PeerDiscovered {
        peer: String::from("peer-b"),
    });
    node.handle_event(NetworkEvent::PeerDiscovered {
        peer: String::from("peer-a"),
    });
    let peers = node.peers();
    assert_eq!(peers.len(), 2);
    assert!(peers.contains(&String::from("peer-a")));
    assert!(peers.contains(&String::from("peer-b")));
}

#[test]
fn expiry_removes_unless_still_reachable() {
    let mut node = NodeState::new();
    node.handle_event(NetworkEvent::PeerDiscovered {
        peer: String::from("peer-a"),
    });
    node.handle_event(NetworkEvent::PeerExpired {
        peer: String::from("peer-a"),
        still_reachable: true,
    });
    assert_eq!(node.peers().len(), 1);
    node.handle_event(NetworkEvent::PeerExpired {
        peer: String::from("peer-a"),
        still_reachable: false,
    });
    assert!(node.peers().is_empty());
}

#[test]
fn malformed_gossip_changes_nothing() {
    let mut node = NodeState::new();
    node.handle_event(NetworkEvent::PeerDiscovered {
        peer: String::from("peer-a"),
    });
    let r = node.handle_event(NetworkEvent::GossipReceived {
        data: vec![0xde, 0xad, 0xbe, 0xef],
    });
    assert_eq!(r, None);
    assert_eq!(node.peers(), vec![String::from("peer-a")]);
}

#[test]
fn well_formed_gossip_is_decoded_and_changes_nothing() {
    let mut node = NodeState::new();
    let bytes = encode_message(&WireMessage::ChainRequest);
    let r = node.handle_event(NetworkEvent::GossipReceived { data: bytes });
    assert_eq!(r, Some(WireMessage::ChainRequest));
    assert!(node.peers().is_empty());
}
