use libp2p::identity::ed25519;
use simperby_network::broadcast::{BroadcastState, RetryStep};
use simperby_network::discovery::{DiscoveryError, DiscoveryState};
use simperby_network::execution::{
    convert_transaction_to_execution, create_execution_transaction, head_of, Execution,
    ExecutionMessage, TransferFungibleToken, TransferNonFungibleToken,
};
use simperby_network::identity::{convert_keypair, convert_public_key, derive_identity};
use simperby_network::known_peers::{lex_compare, to_hex, KnownPeer, KnownPeers};
use simperby_network::message::NetworkMessage;
use simperby_network::node::Node;
use simperby_network::peers::{Peer, PeerRecords};

/// A key pair made from a seed: (public key, secret key).
fn keypair(seed: u8) -> (Vec<u8>, Vec<u8>) {
    let secret = vec![seed; 32];
    let sk = ed25519::SecretKey::try_from_bytes(secret.clone()).unwrap();
    let kp = ed25519::Keypair::from(sk);
    (kp.public().to_bytes().to_vec(), secret)
}

fn public_key(seed: u8) -> Vec<u8> {
    keypair(seed).0
}

fn peer_id(pk: &Vec<u8>) -> Vec<u8> {
    let key = ed25519::PublicKey::try_from_bytes(pk).unwrap();
    libp2p::identity::PublicKey::from(key).to_peer_id().to_bytes()
}

fn peer(pk: &Vec<u8>, ts: u64) -> Peer {
    Peer {
        public_key: pk.clone(),
        address: "127.0.0.1:1".to_string(),
        ports: Vec::new(),
        message: String::new(),
        recently_seen_timestamp: ts,
    }
}

#[test]
fn derive_identity_matches_libp2p_peer_id() {
    let pk = public_key(1);
    let id = derive_identity(&pk).unwrap();
    assert_eq!(id, peer_id(&pk));
    assert_ne!(id, pk);
    assert_eq!(derive_identity(&pk).unwrap(), id);
    assert_ne!(derive_identity(&public_key(2)).unwrap(), id);
}

#[test]
fn derive_identity_rejects_wrong_length() {
    assert!(derive_identity(&vec![1u8; 31]).is_err());
    assert!(derive_identity(&Vec::new()).is_err());
    assert!(convert_public_key(&vec![1u8; 33]).is_err());
}

#[test]
fn convert_public_key_gives_same_peer_id() {
    let pk = public_key(3);
    let key = convert_public_key(&pk).unwrap();
    assert_eq!(key.to_peer_id().to_bytes(), peer_id(&pk));
}

#[test]
fn convert_keypair_accepts_matching_pair() {
    let (pk, sk) = keypair(4);
    let kp = convert_keypair(&pk, &sk).unwrap();
    assert_eq!(kp.public().to_peer_id().to_bytes(), peer_id(&pk));
}

#[test]
fn convert_keypair_rejects_mismatched_or_short_pair() {
    let (pk, _) = keypair(5);
    let (_, sk) = keypair(6);
    assert!(convert_keypair(&pk, &sk).is_err());
    assert!(convert_keypair(&pk, &vec![6u8; 31]).is_err());
}

#[test]
fn identity_is_header_then_key() {
    let pk = public_key(31);
    let id = derive_identity(&pk).unwrap();
    let mut expected = vec![0x00u8, 0x24, 0x08, 0x01, 0x12, 0x20];
    expected.extend_from_slice(&pk);
    assert_eq!(id, expected);
}

#[test]
fn check_consistency_tells_errors_apart() {
    let a = public_key(32);
    let b = public_key(33);
    let mismatch = KnownPeer { id: peer_id(&a), pubkey: b };
    assert_eq!(mismatch.check_consistency().err().unwrap(), "unmatched peer id and public key.");
    let malformed = KnownPeer { id: vec![1], pubkey: vec![1u8; 5] };
    let text = malformed.check_consistency().err().unwrap();
    assert!(text.starts_with("invalid public key: "));
    assert_eq!(text, derive_identity(&vec![1u8; 5]).err().unwrap());
}

#[test]
fn malformed_key_errors_carry_the_decoder_text() {
    let detail = ed25519::PublicKey::try_from_bytes(&[1u8; 5]).err().unwrap().to_string();
    let expected = format!("invalid public key: {}", detail);
    assert_eq!(derive_identity(&vec![1u8; 5]).err().unwrap(), expected);
    assert_eq!(convert_public_key(&vec![1u8; 5]).err().unwrap(), expected);
    let mut table = KnownPeers::new();
    assert_eq!(table.insert(vec![1u8; 5]).err().unwrap(), expected);
    let (pk, _) = keypair(40);
    assert_eq!(
        convert_keypair(&pk, &vec![1u8; 31]).err().unwrap(),
        "invalid public/private keypair was given."
    );
}

#[test]
fn lookup_errors_name_what_was_missing() {
    let table = KnownPeers::new();
    let pk = public_key(41);
    let id = peer_id(&pk);
    let shown = libp2p::PeerId::from_bytes(&id).unwrap().to_string();
    assert_eq!(table.get_public_key(&id).err().unwrap(), format!("no such id: {}", shown));
    assert_eq!(table.get_public_key(&vec![0xab, 0x01]).err().unwrap(), "no such id: ab01");
    let hex: String = pk.iter().map(|b| format!("{:02x}", b)).collect();
    assert_eq!(table.get_peer_id(&pk).err().unwrap(), format!("no such public key: {}", hex));
}

#[test]
fn to_hex_writes_two_digits_per_byte() {
    assert_eq!(to_hex(&vec![0x00, 0x0f, 0xa0, 0xff]), "000fa0ff");
    assert_eq!(to_hex(&Vec::new()), "");
}

#[test]
fn known_peers_insert_and_lookup() {
    let mut table = KnownPeers::new();
    let pk = public_key(7);
    table.insert(pk.clone()).unwrap();
    assert_eq!(table.len(), 1);
    table.insert(pk.clone()).unwrap();
    assert_eq!(table.len(), 1);
    let id = peer_id(&pk);
    assert_eq!(table.get_public_key(&id).unwrap(), pk);
    assert_eq!(table.get_peer_id(&pk).unwrap(), id);
    assert!(table.get_public_key(&pk).is_err());
    assert!(table.get_peer_id(&public_key(8)).is_err());
    assert_eq!(table.snapshot().len(), 1);
    assert_eq!(table.public_keys(), vec![pk]);
}

#[test]
fn known_peers_are_ordered_by_identity() {
    let mut table = KnownPeers::new();
    for seed in [21u8, 22, 23, 24, 25] {
        table.insert(public_key(seed)).unwrap();
    }
    table.insert(public_key(23)).unwrap();
    let ids: Vec<Vec<u8>> = table.snapshot().into_iter().map(|p| p.id).collect();
    assert_eq!(ids.len(), 5);
    let mut sorted = ids.clone();
    sorted.sort();
    assert_eq!(ids, sorted);
}

#[test]
fn lex_compare_orders_bytes() {
    assert_eq!(lex_compare(&vec![1, 2], &vec![1, 3]), -1);
    assert_eq!(lex_compare(&vec![1, 2], &vec![1, 2]), 0);
    assert_eq!(lex_compare(&vec![2], &vec![1, 9]), 1);
    assert_eq!(lex_compare(&vec![1], &vec![1, 0]), -1);
    assert_eq!(lex_compare(&vec![], &vec![]), 0);
}

#[test]
fn known_peers_refuse_invalid_key() {
    let mut table = KnownPeers::new();
    assert!(table.insert(vec![0u8; 3]).is_err());
    assert_eq!(table.len(), 0);
}

#[test]
fn known_peers_refuse_mismatched_pair() {
    let mut table = KnownPeers::new();
    let a = public_key(9);
    let b = public_key(10);
    let bad = KnownPeer { id: peer_id(&a), pubkey: b.clone() };
    assert!(bad.check_consistency().is_err());
    assert!(table.insert_pair(bad).is_err());
    assert_eq!(table.len(), 0);
    let good = KnownPeer { id: peer_id(&b), pubkey: b };
    assert!(good.check_consistency().is_ok());
    assert!(table.insert_pair(good).is_ok());
    assert_eq!(table.len(), 1);
}

#[test]
fn older_observation_never_overwrites_newer() {
    let mut records = PeerRecords::new();
    let pk = public_key(11);
    records.merge(peer(&pk, 500));
    assert_eq!(records.last_seen(&pk), Some(500));
    records.merge(peer(&pk, 300));
    assert_eq!(records.last_seen(&pk), Some(500));
    records.merge(peer(&pk, 900));
    assert_eq!(records.last_seen(&pk), Some(900));
    assert_eq!(records.last_seen(&public_key(12)), None);
}

#[test]
fn recently_seen_horizon_and_self_exclusion() {
    let mut records = PeerRecords::new();
    let me = public_key(13);
    let a = public_key(14);
    let b = public_key(15);
    records.merge(peer(&me, 10_000));
    records.merge(peer(&a, 10_000));
    records.merge(peer(&b, 9_999));
    let seen = records.recently_seen(40_000, 30_000, &me);
    assert_eq!(seen, vec![a.clone()]);
    let seen = records.recently_seen(5_000, 30_000, &me);
    assert_eq!(seen, vec![a, b]);
}

fn cluster_members(n: u8) -> Vec<Vec<u8>> {
    (0..n).map(|i| public_key(100 + i)).collect()
}

#[test]
fn unauthorized_announcement_is_dropped() {
    let members = cluster_members(3);
    let mut state = DiscoveryState::new(members.clone(), members[0].clone());
    let outsider = public_key(50);
    let r = state.on_announcement(&peer_id(&outsider), peer(&outsider, 1));
    assert!(matches!(r, Err(DiscoveryError::UnauthorizedPeer)));
    assert_eq!(state.known_peers().len(), 0);
    assert_eq!(state.records().last_seen(&outsider), None);
}

#[test]
fn mismatched_identity_is_dropped() {
    let members = cluster_members(3);
    let mut state = DiscoveryState::new(members.clone(), members[0].clone());
    let r = state.on_announcement(&peer_id(&members[2]), peer(&members[1], 1));
    assert!(matches!(r, Err(DiscoveryError::IdentityMismatch)));
    assert_eq!(state.known_peers().len(), 0);
    assert_eq!(state.records().last_seen(&members[1]), None);
}

#[test]
fn malformed_member_key_is_dropped() {
    let mut members = cluster_members(2);
    members.push(vec![7u8; 5]);
    let mut state = DiscoveryState::new(members.clone(), members[0].clone());
    let r = state.on_announcement(&vec![1u8; 4], peer(&members[2], 1));
    assert!(matches!(r, Err(DiscoveryError::InvalidKey)));
    assert_eq!(state.known_peers().len(), 0);
}

#[test]
fn valid_announcement_is_taken() {
    let members = cluster_members(3);
    let mut state = DiscoveryState::new(members.clone(), members[0].clone());
    state
        .on_announcement(&peer_id(&members[1]), peer(&members[1], 70))
        .unwrap();
    assert_eq!(state.known_peers().len(), 1);
    assert_eq!(state.records().last_seen(&members[1]), Some(70));
    assert!(state.check_member(&members[2]));
    assert!(!state.check_member(&public_key(60)));
}

#[test]
fn peer_exchange_needs_known_sender() {
    let members = cluster_members(4);
    let mut state = DiscoveryState::new(members.clone(), members[0].clone());
    let entries = vec![(peer_id(&members[2]), peer(&members[2], 5))];
    let r = state.on_peer_exchange(&peer_id(&members[1]), entries);
    assert!(matches!(r, Err(DiscoveryError::UnknownSender)));
    assert_eq!(state.records().last_seen(&members[2]), None);

    state
        .on_announcement(&peer_id(&members[1]), peer(&members[1], 5))
        .unwrap();
    let entries = vec![
        (peer_id(&members[2]), peer(&members[2], 6)),
        (peer_id(&members[3]), peer(&members[2], 6)),
        (peer_id(&members[3]), peer(&members[3], 7)),
    ];
    state.on_peer_exchange(&peer_id(&members[1]), entries).unwrap();
    assert_eq!(state.known_peers().len(), 3);
    assert_eq!(state.records().last_seen(&members[2]), Some(6));
    assert_eq!(state.records().last_seen(&members[3]), Some(7));
}

#[test]
fn announcement_targets_exclude_self() {
    let members = cluster_members(3);
    let mut state = DiscoveryState::new(members.clone(), members[0].clone());
    state.bootstrap(vec![peer(&members[0], 1), peer(&members[1], 1)]);
    assert_eq!(state.known_peers().len(), 2);
    assert_eq!(state.announcement_targets(), vec![members[1].clone()]);
    assert_eq!(state.recently_seen(1, 10), vec![members[1].clone()]);
}

/// Runs rounds of announcements: each node announces itself, and forwards
/// what it knows, to every peer it knows.
fn gossip_round(nodes: &mut Vec<DiscoveryState>, keys: &Vec<Vec<u8>>, now: u64) {
    let n = nodes.len();
    for from in 0..n {
        let targets = nodes[from].announcement_targets();
        let sender = keys[from].clone();
        let known: Vec<Vec<u8>> = nodes[from].known_peers().public_keys();
        for target in targets {
            let to = keys.iter().position(|k| *k == target).unwrap();
            if to >= n {
                continue;
            }
            let _ = nodes[to].on_announcement(&peer_id(&sender), peer(&sender, now));
            let entries: Vec<(Vec<u8>, Peer)> = known
                .iter()
                .map(|k| {
                    let ts = nodes[from].records().last_seen(k).unwrap_or(0);
                    (peer_id(k), peer(k, ts))
                })
                .collect();
            nodes[to].on_peer_exchange(&peer_id(&sender), entries).unwrap();
        }
    }
}

#[test]
fn five_nodes_joining_in_turn_converge() {
    let keys = cluster_members(5);
    let mut nodes: Vec<DiscoveryState> = Vec::new();
    let mut now: u64 = 1_000_000;
    for i in 0..5 {
        let mut node = DiscoveryState::new(keys.clone(), keys[i].clone());
        if i > 0 {
            node.bootstrap(vec![peer(&keys[0], 0)]);
        }
        nodes.push(node);
        // Announcements go out once a second; members join two seconds apart.
        gossip_round(&mut nodes, &keys, now);
        now += 1_000;
        gossip_round(&mut nodes, &keys, now);
        now += 1_000;
    }
    for _ in 0..3 {
        gossip_round(&mut nodes, &keys, now);
        now += 1_000;
    }
    for node in &nodes {
        let seen = node.recently_seen(now, 30_000);
        assert_eq!(seen.len(), 4);
        assert!(!seen.contains(node.own_key()));
    }
}

#[test]
fn broadcast_reaches_every_member() {
    let keys = cluster_members(4);
    let mut states: Vec<BroadcastState> = (0..4).map(|_| BroadcastState::new()).collect();
    let others = |i: usize| -> Vec<Vec<u8>> {
        keys.iter().enumerate().filter(|(j, _)| *j != i).map(|(_, k)| k.clone()).collect()
    };
    let token: u64 = 77;
    let payload = vec![1u8, 2, 3];
    let first = states[0].broadcast(token, payload.clone(), &others(0)).unwrap();
    assert_eq!(first.len(), 3);
    assert!(states[0].broadcast(token, payload.clone(), &others(0)).is_err());
    assert!(!states[0].is_complete(token, &others(0)));
    // Direct relays from the origin arrive first.
    let mut forwards: Vec<(usize, Vec<Vec<u8>>)> = Vec::new();
    for target in &first {
        let to = keys.iter().position(|k| k == target).unwrap();
        let action = states[to].on_receive_relay(token, payload.clone(), &keys[0], &others(to));
        assert!(action.first_time);
        assert_eq!(action.relay_to.len(), 2);
        states[0].on_receive_ack(token, &keys[to]);
        forwards.push((to, action.relay_to));
    }
    // Then the copies that the receivers forwarded: all duplicates.
    for (from, relay_to) in forwards {
        for next in &relay_to {
            let k = keys.iter().position(|x| x == next).unwrap();
            let again = states[k].on_receive_relay(token, payload.clone(), &keys[from], &others(k));
            assert!(!again.first_time);
            assert!(again.relay_to.is_empty());
            states[from].on_receive_ack(token, &keys[k]);
        }
    }
    assert!(states[0].is_complete(token, &others(0)));
    assert!(states[0].retry_targets(token, &others(0)).is_empty());
}

#[test]
fn duplicate_relay_is_only_acknowledged() {
    let keys = cluster_members(3);
    let mut state = BroadcastState::new();
    let first = state.on_receive_relay(5, vec![9], &keys[1], &keys);
    assert!(first.first_time);
    assert_eq!(first.relay_to, vec![keys[0].clone(), keys[2].clone()]);
    let second = state.on_receive_relay(5, vec![9], &keys[2], &keys);
    assert!(!second.first_time);
    assert!(second.relay_to.is_empty());
    assert_eq!(state.retry_targets(5, &keys), vec![keys[0].clone(), keys[2].clone()]);
}

#[test]
fn acks_fill_the_confirmed_set_and_retired_tokens_stay_known() {
    let keys = cluster_members(3);
    let mut state = BroadcastState::new();
    state.broadcast(1, vec![4], &keys).unwrap();
    assert_eq!(state.retry_targets(1, &keys).len(), 3);
    state.on_receive_ack(1, &keys[1]);
    state.on_receive_ack(1, &keys[1]);
    assert_eq!(state.retry_targets(1, &keys), vec![keys[0].clone(), keys[2].clone()]);
    state.on_receive_ack(2, &keys[0]);
    assert!(!state.knows_token(2));
    state.on_receive_ack(1, &keys[0]);
    state.on_receive_ack(1, &keys[2]);
    assert!(state.is_complete(1, &keys));
    assert!(matches!(state.retry_step(1, &keys), RetryStep::Stop));
    state.retire(1);
    assert!(!state.knows_token(1));
    assert!(state.has_seen(1));
    assert!(state.retry_targets(1, &keys).is_empty());
    let late = state.on_receive_relay(1, vec![4], &keys[2], &keys);
    assert!(!late.first_time);
    assert!(late.relay_to.is_empty());
    assert!(state.broadcast(1, vec![4], &keys).is_err());
    state.expire(1);
    assert!(!state.has_seen(1));
    let fresh = state.on_receive_relay(1, vec![4], &keys[2], &keys);
    assert!(fresh.first_time);
}

#[test]
fn retry_step_resends_to_unconfirmed_targets() {
    let keys = cluster_members(3);
    let mut state = BroadcastState::new();
    state.broadcast(2, vec![1], &keys).unwrap();
    state.on_receive_ack(2, &keys[0]);
    match state.retry_step(2, &keys) {
        RetryStep::Resend(to) => assert_eq!(to, vec![keys[1].clone(), keys[2].clone()]),
        RetryStep::Stop => panic!("the broadcast is not complete"),
    }
    assert!(matches!(state.retry_step(9, &keys), RetryStep::Stop));
}

fn dummy_execution(chain: &str) -> Execution {
    Execution {
        target_chain: chain.to_string(),
        contract_sequence: 3,
        message: ExecutionMessage::Dummy { msg: "hi".to_string() },
    }
}

#[test]
fn execution_heads() {
    assert_eq!(head_of(&dummy_execution("eth")), "ex-dummy: eth");
    let ft = Execution {
        target_chain: "sol".to_string(),
        contract_sequence: 1,
        message: ExecutionMessage::TransferFungibleToken(TransferFungibleToken {
            token_address: "t".to_string(),
            amount: 10,
            receiver_address: "r".to_string(),
        }),
    };
    assert_eq!(head_of(&ft), "ex-transfer-ft: sol");
    let nft = Execution {
        target_chain: "near".to_string(),
        contract_sequence: 2,
        message: ExecutionMessage::TransferNonFungibleToken(TransferNonFungibleToken {
            collection_address: "c".to_string(),
            token_index: "1".to_string(),
            receiver_address: "r".to_string(),
        }),
    };
    assert_eq!(head_of(&nft), "ex-transfer-nft: near");
}

#[test]
fn execution_transaction_round_trip() {
    let e = dummy_execution("eth");
    let tx = create_execution_transaction(&e, vec![1, 2], 42, "body".to_string()).unwrap();
    assert_eq!(tx.head, "ex-dummy: eth");
    assert_eq!(tx.body, "body");
    assert_eq!(tx.timestamp, 42);
    let back = convert_transaction_to_execution(&tx, Ok(dummy_execution("eth"))).unwrap();
    assert_eq!(back.target_chain, "eth");
    assert!(convert_transaction_to_execution(&tx, Ok(dummy_execution("sol"))).is_err());
    assert!(convert_transaction_to_execution(&tx, Err("bad body".to_string())).is_err());
}

fn transaction_with_head(head: &str) -> simperby_network::execution::Transaction {
    simperby_network::execution::Transaction {
        author: vec![1],
        timestamp: 0,
        head: head.to_string(),
        body: String::new(),
    }
}

#[test]
fn execution_head_follows_separator_segments() {
    let tx = transaction_with_head("ex-dummy: eth: x");
    let back = convert_transaction_to_execution(&tx, Ok(dummy_execution("eth"))).unwrap();
    assert_eq!(back.target_chain, "eth");
}

#[test]
fn execution_head_errors() {
    let err = |head: &str, chain: &str| {
        convert_transaction_to_execution(&transaction_with_head(head), Ok(dummy_execution(chain)))
            .err()
            .unwrap()
    };
    assert_eq!(err("dummy: eth", "eth"), "Invalid head");
    assert_eq!(err("ex-dummy", "eth"), "Invalid head");
    assert_eq!(err("ex-dummy: sol", "eth"), "Invalid target chain");
    assert_eq!(err("ex-transfer-ft: eth", "eth"), "Invalid message");
    assert_eq!(err("ex-unknown: eth", "eth"), "Invalid message");
}

#[test]
fn node_acknowledges_and_relays_a_new_payload_once() {
    let keys = cluster_members(3);
    let mut node = Node::new(keys.clone(), keys[0].clone());
    for k in &keys[1..] {
        let out = node.handle_message(
            &peer_id(k),
            "127.0.0.1:9".to_string(),
            NetworkMessage::Alive(k.clone()),
            1_000,
        );
        assert!(out.is_empty());
    }
    assert_eq!(node.discovery.known_peers().len(), 2);
    assert_eq!(node.discovery.records().last_seen(&keys[1]), Some(1_000));

    let out = node.handle_message(
        &peer_id(&keys[1]),
        String::new(),
        NetworkMessage::Message(8, vec![5, 6]),
        1_001,
    );
    assert_eq!(out.len(), 2);
    assert_eq!(out[0].to, keys[1]);
    assert!(matches!(&out[0].message, NetworkMessage::Ack(k, 8) if *k == keys[0]));
    assert_eq!(out[1].to, keys[2]);
    assert!(matches!(&out[1].message, NetworkMessage::Message(8, p) if *p == vec![5u8, 6]));

    let again = node.handle_message(
        &peer_id(&keys[2]),
        String::new(),
        NetworkMessage::Message(8, vec![5, 6]),
        1_002,
    );
    assert_eq!(again.len(), 1);
    assert_eq!(again[0].to, keys[2]);
    assert!(node.broadcasts.knows_token(8));
}

#[test]
fn node_drops_relay_from_unknown_identity_and_takes_acks() {
    let keys = cluster_members(3);
    let mut node = Node::new(keys.clone(), keys[0].clone());
    let out = node.handle_message(
        &peer_id(&keys[1]),
        String::new(),
        NetworkMessage::Message(3, vec![1]),
        10,
    );
    assert!(out.is_empty());
    assert!(!node.broadcasts.knows_token(3));

    node.broadcasts.broadcast(4, vec![2], &vec![keys[1].clone()]).unwrap();
    let out = node.handle_message(
        &peer_id(&keys[1]),
        String::new(),
        NetworkMessage::Ack(keys[1].clone(), 4),
        11,
    );
    assert!(out.is_empty());
    assert!(node.broadcasts.is_complete(4, &vec![keys[1].clone()]));
}
