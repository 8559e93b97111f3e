//! One node: its discovery state and its broadcast records, and what it does
//! with each message that arrives.
use crate::broadcast::{key_set, BroadcastState, BroadcastToken, MessageView, ack_spec};
use crate::discovery::DiscoveryState;
use crate::identity::PublicKeyBytes;
use crate::message::NetworkMessage;
use crate::peers::Peer;
use vstd::prelude::*;

verus! {

/// A message to send, and to whom (by public key).
pub struct Outgoing {
    pub to: PublicKeyBytes,
    pub message: NetworkMessage,
}

/// The message is an acknowledgement of `token` by `key`.
pub open spec fn is_ack(m: NetworkMessage, key: Seq<u8>, token: BroadcastToken) -> bool {
    match m {
        NetworkMessage::Ack(k, t) => k@ == key && t == token,
        _ => false,
    }
}

/// The message relays `payload` under `token`.
pub open spec fn is_relay(m: NetworkMessage, token: BroadcastToken, payload: Seq<u8>) -> bool {
    match m {
        NetworkMessage::Message(t, p) => t == token && p@ == payload,
        _ => false,
    }
}

/// A node's state.
pub struct Node {
    pub discovery: DiscoveryState,
    pub broadcasts: BroadcastState,
}

impl Node {
    pub open spec fn wf(&self) -> bool {
        self.discovery.wf() && self.broadcasts.wf()
    }

    /// The keys that a node relays a new payload to, besides the sender:
    /// every known key but its own.
    pub open spec fn relay_set(&self, sender: Seq<u8>) -> Set<Seq<u8>> {
        Set::new(|k: Seq<u8>| self.discovery.key_known(k) && k != self.discovery.own_key_view() && k != sender)
    }

    /// A node with no peers and no broadcasts.
    pub fn new(members: Vec<PublicKeyBytes>, own_key: PublicKeyBytes) -> (r: Self)
        ensures
            r.wf(),
            r.discovery.member_keys() == members@,
            r.discovery.own_key_view() == own_key@,
            r.broadcasts@ == Map::<BroadcastToken, MessageView>::empty(),
    {
        Node { discovery: DiscoveryState::new(members, own_key), broadcasts: BroadcastState::new() }
    }

    /// Takes a message that arrived from the identity `from_id` at
    /// `from_address`, at time `now`, and returns the messages to send.
    /// - A liveness announcement is taken as the discovery protocol says,
    ///   with the sender's address and time `now`; nothing is sent.
    /// - An acknowledgement confirms its key for its token; nothing is sent.
    /// - A payload relay from an identity that is not known is dropped. From
    ///   a known one it is acknowledged to the sender first; a token new to
    ///   the node is then relayed to every known key but the node's own and
    ///   the sender's, and a token already known is relayed nowhere.
    pub fn handle_message(
        &mut self,
        from_id: &Vec<u8>,
        from_address: String,
        message: NetworkMessage,
        now: u64,
    ) -> (r: Vec<Outgoing>)
        requires
            old(self).wf(),
        ensures
            final(self).wf(),
            final(self).discovery.member_keys() == old(self).discovery.member_keys(),
            final(self).discovery.own_key_view() == old(self).discovery.own_key_view(),
            message is Alive ==> r@.len() == 0 && final(self).broadcasts@ == old(self).broadcasts@,
            message matches NetworkMessage::Alive(pk) ==> {
                let peer_ok = old(self).discovery.is_member(pk@) && crate::identity::peer_id_of(pk@)
                    == Some(from_id@);
                &&& !peer_ok ==> final(self).discovery.same_tables(&old(self).discovery)
                &&& peer_ok ==> final(self).discovery.knows((from_id@, pk@))
                &&& peer_ok ==> final(self).discovery.records_view().contains_key(pk@)
                    && final(self).discovery.records_view()[pk@].recently_seen_timestamp >= now
            },
            message matches NetworkMessage::Ack(pk, token) ==> r@.len() == 0
                && final(self).discovery.same_tables(&old(self).discovery)
                && final(self).broadcasts@ == ack_spec(old(self).broadcasts@, token, pk@),
            message is Message ==> final(self).discovery.same_tables(&old(self).discovery),
            message matches NetworkMessage::Message(token, payload) ==> {
                let known = exists|pk: Seq<u8>| old(self).discovery.knows((from_id@, pk));
                &&& !known ==> r@.len() == 0 && final(self).broadcasts@ == old(self).broadcasts@
                &&& known ==> r@.len() >= 1 && old(self).discovery.knows((from_id@, r@[0].to@))
                    && is_ack(r@[0].message, old(self).discovery.own_key_view(), token)
                &&& known && old(self).broadcasts.seen(token) ==> r@.len() == 1
                    && final(self).broadcasts@ == old(self).broadcasts@
                &&& known && !old(self).broadcasts.seen(token) ==> {
                    &&& final(self).broadcasts@ == old(self).broadcasts@.insert(token, (payload@, set![r@[0].to@]))
                    &&& forall|j: int| 1 <= j < r@.len() ==> is_relay((#[trigger] r@[j]).message, token, payload@)
                    &&& Set::new(|k: Seq<u8>| exists|j: int| 1 <= j < r@.len() && #[trigger] r@[j].to@ == k)
                        == old(self).relay_set(r@[0].to@)
                }
            },
    {
        match message {
            NetworkMessage::Alive(pk) => {
                let peer = Peer {
                    public_key: pk,
                    address: from_address,
                    ports: Vec::new(),
                    message: String::new(),
                    recently_seen_timestamp: now,
                };
                let _ = self.discovery.on_announcement(from_id, peer);
                Vec::new()
            },
            NetworkMessage::Ack(pk, token) => {
                self.broadcasts.on_receive_ack(token, &pk);
                Vec::new()
            },
            NetworkMessage::Message(token, payload) => {
                let sender = match self.discovery.sender_key(from_id) {
                    None => {
                        return Vec::new();
                    },
                    Some(pk) => pk,
                };
                let targets = self.discovery.announcement_targets();
                let ghost tset = Set::new(|k: Seq<u8>| self.discovery.key_known(k) && k != self.discovery.own_key_view());
                proof {
                    assert forall|k: Seq<u8>| #[trigger] key_set(targets@).contains(k) <==> tset.contains(k) by {
                        if key_set(targets@).contains(k) {
                            let j = choose|j: int| 0 <= j < targets@.len() && #[trigger] targets@[j]@ == k;
                            assert(targets@[j]@ != self.discovery.own_key_view());
                        }
                        if tset.contains(k) {
                            let id = choose|id: Seq<u8>| self.discovery.knows((id, k));
                            assert(self.discovery.knows((id, k)));
                            let j = choose|j: int| 0 <= j < targets@.len() && #[trigger] targets@[j]@ == k;
                        }
                    }
                    assert(key_set(targets@) =~= tset);
                    assert(tset.remove(sender@) =~= self.relay_set(sender@));
                }
                let action = self.broadcasts.on_receive_relay(token, payload.clone(), &sender, &targets);
                let mut out: Vec<Outgoing> = Vec::new();
                out.push(
                    Outgoing {
                        to: sender.clone(),
                        message: NetworkMessage::Ack(self.discovery.own_key().clone(), token),
                    },
                );
                let relay_to = action.relay_to;
                let mut i: usize = 0;
                while i < relay_to.len()
                    invariant
                        i <= relay_to@.len(),
                        out@.len() == i + 1,
                        out@[0].to@ == sender@,
                        is_ack(out@[0].message, self.discovery.own_key_view(), token),
                        forall|j: int| 1 <= j < out@.len() ==> is_relay((#[trigger] out@[j]).message, token, payload@),
                        forall|j: int| 1 <= j < out@.len() ==> #[trigger] out@[j].to@ == relay_to@[j - 1]@,
                    decreases relay_to@.len() - i,
                {
                    out.push(
                        Outgoing {
                            to: relay_to[i].clone(),
                            message: NetworkMessage::Message(token, payload.clone()),
                        },
                    );
                    i = i + 1;
                }
                proof {
                    let dests = Set::new(|k: Seq<u8>| exists|j: int| 1 <= j < out@.len() && #[trigger] out@[j].to@ == k);
                    assert forall|k: Seq<u8>| #[trigger] dests.contains(k) <==> key_set(relay_to@).contains(k) by {
                        if dests.contains(k) {
                            let j = choose|j: int| 1 <= j < out@.len() && #[trigger] out@[j].to@ == k;
                            assert(relay_to@[j - 1]@ == k);
                        }
                        if key_set(relay_to@).contains(k) {
                            let j = choose|j: int| 0 <= j < relay_to@.len() && #[trigger] relay_to@[j]@ == k;
                            assert(out@[j + 1].to@ == k);
                        }
                    }
                    assert(dests =~= key_set(relay_to@));
                }
                out
            },
        }
    }
}

} // verus!
