//! The decisions of the discovery protocol: which announcements are taken,
//! what they change, and whom the node announces itself to.
use crate::identity::{derive_identity, peer_id_of, PublicKeyBytes};
use crate::known_peers::{bytes_eq, KnownPeer, KnownPeers, PeerPair};
use crate::peers::{is_recent, merge_spec, Peer, PeerRecords};
use vstd::prelude::*;

verus! {

/// Why an announcement was dropped.
#[derive(Debug)]
pub enum DiscoveryError {
    /// The claimed public key is not an Ed25519 public key.
    InvalidKey,
    /// The claimed public key is not one of the permitted members.
    UnauthorizedPeer,
    /// The claimed public key does not derive the sender's identity.
    IdentityMismatch,
    /// A peer exchange came from an identity that is not known.
    UnknownSender,
}

/// Whether the key is among the given member keys.
pub open spec fn in_keys(keys: Seq<Vec<u8>>, k: Seq<u8>) -> bool {
    exists|i: int| 0 <= i < keys.len() && #[trigger] keys[i]@ == k
}

/// What one node knows of the cluster.
pub struct DiscoveryState {
    /// The permitted membership.
    members: Vec<PublicKeyBytes>,
    /// The node's own public key.
    own_key: PublicKeyBytes,
    known: KnownPeers,
    records: PeerRecords,
}

impl DiscoveryState {
    /// The permitted membership.
    pub closed spec fn member_keys(&self) -> Seq<Vec<u8>> {
        self.members@
    }

    /// The node's own key.
    pub closed spec fn own_key_view(&self) -> Seq<u8> {
        self.own_key@
    }

    /// Whether the key belongs to a permitted member.
    pub open spec fn is_member(&self, k: Seq<u8>) -> bool {
        in_keys(self.member_keys(), k)
    }

    /// The known pairs, in the table's order.
    pub closed spec fn known_view(&self) -> Seq<PeerPair> {
        self.known@
    }

    /// The liveness records, by key.
    pub closed spec fn records_view(&self) -> Map<Seq<u8>, Peer> {
        self.records@
    }

    /// Whether the member with this key counts as recently seen: it has a
    /// record, is not the node itself, and was seen within the horizon.
    pub open spec fn counts_as_seen(&self, k: Seq<u8>, now: u64, threshold: u64) -> bool {
        &&& self.records_view().contains_key(k)
        &&& k != self.own_key_view()
        &&& is_recent(self.records_view()[k].recently_seen_timestamp, now, threshold)
    }

    /// Both tables are well formed and hold members only.
    pub closed spec fn wf(&self) -> bool {
        &&& self.known.wf()
        &&& self.records.wf()
        &&& forall|e: PeerPair| #[trigger] self.known.has(e) ==> self.is_member(e.1)
        &&& forall|k: Seq<u8>| #[trigger] self.records@.contains_key(k) ==> self.is_member(k)
    }

    /// Whether the pair is in the known-peers table.
    pub closed spec fn knows(&self, e: PeerPair) -> bool {
        self.known.has(e)
    }

    /// Whether some known pair holds the key.
    pub open spec fn key_known(&self, k: Seq<u8>) -> bool {
        exists|id: Seq<u8>| self.knows((id, k))
    }

    /// The state's content is that of `other`.
    pub open spec fn same_tables(&self, other: &DiscoveryState) -> bool {
        &&& self.known_view() == other.known_view()
        &&& self.records_view() == other.records_view()
        &&& self.member_keys() == other.member_keys()
        &&& self.own_key_view() == other.own_key_view()
    }

    /// A node that knows nobody yet.
    pub fn new(members: Vec<PublicKeyBytes>, own_key: PublicKeyBytes) -> (r: Self)
        ensures
            r.wf(),
            r.member_keys() == members@,
            r.own_key_view() == own_key@,
            r.known_view() == Seq::<PeerPair>::empty(),
            r.records_view() == Map::<Seq<u8>, Peer>::empty(),
    {
        DiscoveryState { members, own_key, known: KnownPeers::new(), records: PeerRecords::new() }
    }

    /// The node's own public key.
    pub fn own_key(&self) -> (r: &PublicKeyBytes)
        ensures
            r@ == self.own_key_view(),
    {
        &self.own_key
    }

    /// The permitted membership.
    pub fn members(&self) -> (r: &Vec<PublicKeyBytes>)
        ensures
            r@ == self.member_keys(),
    {
        &self.members
    }

    /// The known-peers table.
    pub fn known_peers(&self) -> (r: &KnownPeers)
        ensures
            r@ == self.known_view(),
            self.wf() ==> r.wf(),
    {
        &self.known
    }

    /// The liveness records.
    pub fn records(&self) -> (r: &PeerRecords)
        ensures
            r@ == self.records_view(),
            self.wf() ==> r.wf(),
    {
        &self.records
    }

    /// The public key known for an identity.
    pub fn sender_key(&self, id: &Vec<u8>) -> (r: Option<PublicKeyBytes>)
        requires
            self.wf(),
        ensures
            r matches Some(pk) ==> self.knows((id@, pk@)),
            r is None <==> !exists|pk: Seq<u8>| self.knows((id@, pk)),
    {
        match self.known.get_public_key(id) {
            Ok(pk) => {
                assert(self.knows((id@, pk@)));
                Some(pk)
            },
            Err(_) => None,
        }
    }

    /// Whether the key belongs to a permitted member.
    pub fn check_member(&self, key: &Vec<u8>) -> (r: bool)
        ensures
            r == self.is_member(key@),
    {
        let mut i: usize = 0;
        while i < self.members.len()
            invariant
                i <= self.members@.len(),
                forall|j: int| 0 <= j < i ==> self.members@[j]@ != key@,
            decreases self.members@.len() - i,
        {
            if bytes_eq(&self.members[i], key) {
                return true;
            }
            i = i + 1;
        }
        false
    }

    /// Takes an announcement from the identity `claimed_id` about `peer`.
    /// It is dropped, leaving the state as it was, when the key is not a
    /// member's, is no public key, or does not derive `claimed_id`; otherwise
    /// the pair is known afterwards and the observation is merged into the
    /// records.
    pub fn on_announcement(&mut self, claimed_id: &Vec<u8>, peer: Peer) -> (r: Result<
        (),
        DiscoveryError,
    >)
        requires
            old(self).wf(),
        ensures
            final(self).wf(),
            final(self).member_keys() == old(self).member_keys(),
            final(self).own_key_view() == old(self).own_key_view(),
            !old(self).is_member(peer.public_key@) ==> r matches Err(
                DiscoveryError::UnauthorizedPeer,
            ),
            old(self).is_member(peer.public_key@) && peer_id_of(peer.public_key@) is None ==> r matches Err(
                DiscoveryError::InvalidKey,
            ),
            old(self).is_member(peer.public_key@) && peer_id_of(peer.public_key@) is Some
                && peer_id_of(peer.public_key@)->0 != claimed_id@ ==> r matches Err(
                DiscoveryError::IdentityMismatch,
            ),
            r is Ok <==> old(self).is_member(peer.public_key@) && peer_id_of(peer.public_key@)
                == Some(claimed_id@),
            r is Err ==> final(self).same_tables(old(self)),
            r is Ok ==> forall|e: PeerPair| #[trigger]
                final(self).knows(e) <==> old(self).knows(e) || e == (claimed_id@, peer.public_key@),
            r is Ok ==> final(self).records_view() == merge_spec(old(self).records_view(), peer),
    {
        if !self.check_member(&peer.public_key) {
            return Err(DiscoveryError::UnauthorizedPeer);
        }
        let id = match derive_identity(&peer.public_key) {
            Ok(id) => id,
            Err(_) => {
                return Err(DiscoveryError::InvalidKey);
            },
        };
        if !bytes_eq(&id, claimed_id) {
            return Err(DiscoveryError::IdentityMismatch);
        }
        let pair = KnownPeer { id, pubkey: peer.public_key.clone() };
        let ghost old_known = self.known;
        let res = self.known.insert_pair(pair);
        assert(res is Ok);
        let ghost k = peer.public_key@;
        self.records.merge(peer);
        proof {
            assert forall|k2: Seq<u8>| #[trigger] self.records@.contains_key(k2) implies self.is_member(
                k2,
            ) by {
                if k2 != k {
                    assert(old(self).records@.contains_key(k2));
                }
            }
            assert forall|e: PeerPair| #[trigger] self.known.has(e) implies self.is_member(e.1) by {
                if !old_known.has(e) {
                    assert(e.1 == k);
                }
            }
        }
        Ok(())
    }

    /// Seeds the tables from an initial list of peers, each taken as if it
    /// had announced itself under the identity its key derives. Entries
    /// that are not members' or carry no valid key are skipped.
    pub fn bootstrap(&mut self, initial: Vec<Peer>)
        requires
            old(self).wf(),
        ensures
            final(self).wf(),
            final(self).member_keys() == old(self).member_keys(),
            final(self).own_key_view() == old(self).own_key_view(),
            forall|i: int|
                0 <= i < initial@.len() && old(self).is_member(#[trigger] initial@[i].public_key@)
                    && peer_id_of(initial@[i].public_key@) is Some ==> final(self).records_view().contains_key(
                    initial@[i].public_key@,
                ) && final(self).records_view()[initial@[i].public_key@].recently_seen_timestamp
                    >= initial@[i].recently_seen_timestamp,
            forall|i: int|
                0 <= i < initial@.len() && old(self).is_member(#[trigger] initial@[i].public_key@)
                    && peer_id_of(initial@[i].public_key@) is Some ==> final(self).knows(
                    (peer_id_of(initial@[i].public_key@)->0, initial@[i].public_key@),
                ),
            forall|e: PeerPair| #[trigger] old(self).knows(e) ==> final(self).knows(e),
            forall|e: PeerPair| #[trigger] final(self).knows(e) ==> old(self).knows(e) || exists|i: int|
                0 <= i < initial@.len() && e.1 == #[trigger] initial@[i].public_key@,
            forall|k: Seq<u8>| #[trigger] final(self).records_view().contains_key(k) ==> old(self).records_view().contains_key(k)
                || exists|i: int| 0 <= i < initial@.len() && k == #[trigger] initial@[i].public_key@,
    {
        let ghost start = *self;
        let ghost all = initial@;
        let mut i: usize = 0;
        while i < initial.len()
            invariant
                self.wf(),
                self.member_keys() == old(self).member_keys(),
                self.own_key_view() == old(self).own_key_view(),
                initial@ == all,
                i <= all.len(),
                start == *old(self),
                forall|e: PeerPair| #[trigger] start.knows(e) ==> self.knows(e),
                forall|j: int|
                    0 <= j < i && self.is_member(#[trigger] all[j].public_key@) && peer_id_of(
                        all[j].public_key@,
                    ) is Some ==> self.knows((peer_id_of(all[j].public_key@)->0, all[j].public_key@)),
                forall|e: PeerPair| #[trigger] self.knows(e) ==> start.knows(e) || exists|j: int|
                    0 <= j < i && e.1 == #[trigger] all[j].public_key@,
                forall|k: Seq<u8>| #[trigger] self.records_view().contains_key(k) ==> start.records_view().contains_key(k)
                    || exists|j: int| 0 <= j < i && k == #[trigger] all[j].public_key@,
                forall|j: int|
                    0 <= j < i && self.is_member(#[trigger] all[j].public_key@) && peer_id_of(
                        all[j].public_key@,
                    ) is Some ==> self.records_view().contains_key(all[j].public_key@)
                        && self.records_view()[all[j].public_key@].recently_seen_timestamp
                        >= all[j].recently_seen_timestamp,
            decreases all.len() - i,
        {
            let peer = copy_peer(&initial[i]);
            let id = derive_identity(&peer.public_key);
            match id {
                Ok(id) => {
                    let ghost before = self.records_view();
                    let ghost before_state = *self;
                    let r = self.on_announcement(&id, peer);
                    proof {
                        assert forall|j: int|
                            0 <= j <= i && self.is_member(#[trigger] all[j].public_key@) && peer_id_of(
                                all[j].public_key@,
                            ) is Some implies self.knows((peer_id_of(all[j].public_key@)->0, all[j].public_key@)) by {
                            if j < i {
                                assert(before_state.knows((peer_id_of(all[j].public_key@)->0, all[j].public_key@)));
                            }
                        }
                        assert forall|e: PeerPair| #[trigger] start.knows(e) implies self.knows(e) by {
                            assert(before_state.knows(e));
                        }
                        assert forall|e: PeerPair| #[trigger] self.knows(e) implies start.knows(e) || exists|j: int|
                            0 <= j <= i && e.1 == #[trigger] all[j].public_key@ by {
                            if !before_state.knows(e) {
                                assert(e.1 == all[i as int].public_key@);
                            } else if !start.knows(e) {
                                let j = choose|j: int| 0 <= j < i && e.1 == #[trigger] all[j].public_key@;
                                assert(e.1 == all[j].public_key@);
                            }
                        }
                        assert forall|k: Seq<u8>| #[trigger] self.records_view().contains_key(k) implies start.records_view().contains_key(k)
                            || exists|j: int| 0 <= j <= i && k == #[trigger] all[j].public_key@ by {
                            if !before.contains_key(k) {
                                assert(k == all[i as int].public_key@);
                            } else if !start.records_view().contains_key(k) {
                                let j = choose|j: int| 0 <= j < i && k == #[trigger] all[j].public_key@;
                                assert(k == all[j].public_key@);
                            }
                        }
                        if r is Ok {
                            assert forall|j: int|
                                0 <= j <= i && self.is_member(#[trigger] all[j].public_key@)
                                    && peer_id_of(all[j].public_key@) is Some implies self.records_view().contains_key(
                                    all[j].public_key@,
                                ) && self.records_view()[all[j].public_key@].recently_seen_timestamp
                                    >= all[j].recently_seen_timestamp by {
                                if j < i {
                                    assert(before.contains_key(all[j].public_key@));
                                }
                            }
                        }
                    }
                },
                Err(_) => {},
            }
            i = i + 1;
        }
    }

    /// Takes a peer exchange: a list of announcements that an already known
    /// sender forwards. Each entry is taken as a direct announcement would
    /// be. A sender that is not known has the whole list dropped.
    pub fn on_peer_exchange(&mut self, sender_id: &Vec<u8>, entries: Vec<(Vec<u8>, Peer)>) -> (r:
        Result<(), DiscoveryError>)
        requires
            old(self).wf(),
        ensures
            final(self).wf(),
            final(self).member_keys() == old(self).member_keys(),
            final(self).own_key_view() == old(self).own_key_view(),
            r is Err <==> !exists|pk: Seq<u8>| old(self).knows((sender_id@, pk)),
            r is Err ==> final(self).same_tables(old(self)),
            forall|e: PeerPair| #[trigger] old(self).knows(e) ==> final(self).knows(e),
            r is Ok ==> forall|i: int|
                0 <= i < entries@.len() && old(self).is_member(#[trigger] entries@[i].1.public_key@)
                    && peer_id_of(entries@[i].1.public_key@) == Some(entries@[i].0@) ==> final(self).knows((entries@[i].0@, entries@[i].1.public_key@)) && final(self).records_view().contains_key(entries@[i].1.public_key@) && final(self).records_view()[entries@[i].1.public_key@].recently_seen_timestamp
                    >= entries@[i].1.recently_seen_timestamp,
            forall|e: PeerPair| #[trigger] final(self).knows(e) ==> old(self).knows(e) || exists|i: int|
                0 <= i < entries@.len() && e == (entries@[i].0@, #[trigger] entries@[i].1.public_key@),
            forall|k: Seq<u8>| #[trigger] final(self).records_view().contains_key(k) ==> old(self).records_view().contains_key(k)
                || exists|i: int| 0 <= i < entries@.len() && k == #[trigger] entries@[i].1.public_key@,
    {
        match self.known.get_public_key(sender_id) {
            Err(_) => {
                return Err(DiscoveryError::UnknownSender);
            },
            Ok(pk) => {
                assert(old(self).knows((sender_id@, pk@)));
            },
        }
        let ghost all = entries@;
        let ghost start = *self;
        let mut i: usize = 0;
        while i < entries.len()
            invariant
                self.wf(),
                self.member_keys() == old(self).member_keys(),
                self.own_key_view() == old(self).own_key_view(),
                entries@ == all,
                i <= all.len(),
                forall|e: PeerPair| #[trigger] start.knows(e) ==> self.knows(e),
                start == *old(self),
                forall|e: PeerPair| #[trigger] self.knows(e) ==> start.knows(e) || exists|j: int|
                    0 <= j < i && e == (all[j].0@, #[trigger] all[j].1.public_key@),
                forall|k: Seq<u8>| #[trigger] self.records_view().contains_key(k) ==> start.records_view().contains_key(k)
                    || exists|j: int| 0 <= j < i && k == #[trigger] all[j].1.public_key@,
                forall|j: int|
                    0 <= j < i && self.is_member(#[trigger] all[j].1.public_key@) && peer_id_of(
                        all[j].1.public_key@,
                    ) == Some(all[j].0@) ==> self.knows((all[j].0@, all[j].1.public_key@))
                        && self.records_view().contains_key(all[j].1.public_key@)
                        && self.records_view()[all[j].1.public_key@].recently_seen_timestamp
                        >= all[j].1.recently_seen_timestamp,
            decreases all.len() - i,
        {
            let peer = copy_peer(&entries[i].1);
            let ghost before = *self;
            let r = self.on_announcement(&entries[i].0, peer);
            proof {
                assert forall|e: PeerPair| #[trigger] self.knows(e) implies start.knows(e) || exists|j: int|
                    0 <= j <= i && e == (all[j].0@, #[trigger] all[j].1.public_key@) by {
                    if !before.knows(e) {
                        assert(e == (all[i as int].0@, all[i as int].1.public_key@));
                    } else if !start.knows(e) {
                        let j = choose|j: int| 0 <= j < i && e == (all[j].0@, #[trigger] all[j].1.public_key@);
                        assert(e == (all[j].0@, all[j].1.public_key@));
                    }
                }
                assert forall|k: Seq<u8>| #[trigger] self.records_view().contains_key(k) implies start.records_view().contains_key(k)
                    || exists|j: int| 0 <= j <= i && k == #[trigger] all[j].1.public_key@ by {
                    if !before.records_view().contains_key(k) {
                        assert(k == all[i as int].1.public_key@);
                    } else if !start.records_view().contains_key(k) {
                        let j = choose|j: int| 0 <= j < i && k == #[trigger] all[j].1.public_key@;
                        assert(k == all[j].1.public_key@);
                    }
                }
                if r is Ok {
                    assert forall|j: int|
                        0 <= j <= i && self.is_member(#[trigger] all[j].1.public_key@) && peer_id_of(
                            all[j].1.public_key@,
                        ) == Some(all[j].0@) implies self.knows((all[j].0@, all[j].1.public_key@))
                            && self.records_view().contains_key(all[j].1.public_key@)
                            && self.records_view()[all[j].1.public_key@].recently_seen_timestamp
                            >= all[j].1.recently_seen_timestamp by {
                        if j < i {
                            assert(before.knows((all[j].0@, all[j].1.public_key@)));
                            assert(before.records_view().contains_key(all[j].1.public_key@));
                        }
                    }
                }
            }
            i = i + 1;
        }
        Ok(())
    }

    /// The keys to announce the node to: every known peer but the node
    /// itself, in the table's order.
    pub fn announcement_targets(&self) -> (r: Vec<PublicKeyBytes>)
        requires
            self.wf(),
        ensures
            forall|i: int| 0 <= i < r@.len() ==> #[trigger] r@[i]@ != self.own_key_view() && self.key_known(r@[i]@),
            forall|e: PeerPair| #[trigger] self.knows(e) && e.1 != self.own_key_view() ==> exists|i: int|
                0 <= i < r@.len() && #[trigger] r@[i]@ == e.1,
    {
        let all = self.known.snapshot();
        let mut out: Vec<PublicKeyBytes> = Vec::new();
        let mut i: usize = 0;
        while i < all.len()
            invariant
                i <= all@.len(),
                all@.len() == self.known_view().len(),
                forall|j: int| 0 <= j < all@.len() ==> #[trigger] all@[j]@ == self.known_view()[j],
                forall|a: int| 0 <= a < out@.len() ==> #[trigger] out@[a]@ != self.own_key@,
                forall|a: int| 0 <= a < out@.len() ==> self.key_known(#[trigger] out@[a]@),
                forall|j: int| 0 <= j < i && (#[trigger] all@[j]).pubkey@ != self.own_key@ ==> exists|a: int|
                    0 <= a < out@.len() && #[trigger] out@[a]@ == all@[j].pubkey@,
            decreases all@.len() - i,
        {
            if !bytes_eq(&all[i].pubkey, &self.own_key) {
                let ghost before = out@;
                out.push(all[i].pubkey.clone());
                proof {
                    assert(self.known@[i as int] == all@[i as int]@);
                    assert(self.knows((all@[i as int].id@, out@[before.len() as int]@)));
                    assert forall|a: int| 0 <= a < out@.len() implies self.key_known(#[trigger] out@[a]@) by {
                        if a < before.len() {
                            assert(out@[a] == before[a]);
                        } else {
                            assert(self.knows((all@[i as int].id@, out@[a]@)));
                        }
                    }
                    assert forall|j: int| 0 <= j <= i && (#[trigger] all@[j]).pubkey@ != self.own_key@
                        implies exists|a: int| 0 <= a < out@.len() && #[trigger] out@[a]@ == all@[j].pubkey@ by {
                        if j < i {
                            let a = choose|a: int| 0 <= a < before.len() && #[trigger] before[a]@ == all@[j].pubkey@;
                            assert(out@[a] == before[a]);
                        } else {
                            assert(out@[before.len() as int]@ == all@[j].pubkey@);
                        }
                    }
                }
            }
            i = i + 1;
        }
        proof {
            assert forall|e: PeerPair| #[trigger] self.knows(e) && e.1 != self.own_key@ implies exists|i: int|
                0 <= i < out@.len() && #[trigger] out@[i]@ == e.1 by {
                let j = choose|j: int| 0 <= j < self.known_view().len() && self.known_view()[j] == e;
                assert(all@[j]@ == e);
                assert(all@[j].pubkey@ != self.own_key@);
            }
        }
        out
    }

    /// The members seen within `threshold` milliseconds before `now`; the
    /// node never counts itself.
    pub fn recently_seen(&self, now: u64, threshold: u64) -> (r: Vec<PublicKeyBytes>)
        requires
            self.wf(),
        ensures
            forall|i: int| 0 <= i < r@.len() ==> self.counts_as_seen(#[trigger] r@[i]@, now, threshold),
            forall|i: int| 0 <= i < r@.len() ==> #[trigger] r@[i]@ != self.own_key_view(),
            forall|k: Seq<u8>| #[trigger]
                self.counts_as_seen(k, now, threshold) ==> exists|i: int|
                    0 <= i < r@.len() && #[trigger] r@[i]@ == k,
            forall|i: int, j: int|
                0 <= i < r@.len() && 0 <= j < r@.len() && i != j ==> #[trigger] r@[i]@ != #[trigger] r@[j]@,
    {
        let r = self.records.recently_seen(now, threshold, &self.own_key);
        proof {
            assert forall|k: Seq<u8>| #[trigger] self.counts_as_seen(k, now, threshold) implies exists|i: int|
                0 <= i < r@.len() && #[trigger] r@[i]@ == k by {
                assert(self.records.counts_as_seen(k, now, threshold, self.own_key@));
            }
        }
        r
    }
}

/// A copy of a record.
pub fn copy_peer(p: &Peer) -> (r: Peer)
    ensures
        r.public_key@ == p.public_key@,
        r.recently_seen_timestamp == p.recently_seen_timestamp,
        r.address@ == p.address@,
        r.message@ == p.message@,
        r.ports@.len() == p.ports@.len(),
        forall|i: int| 0 <= i < r.ports@.len() ==> (#[trigger] r.ports@[i]).0@ == p.ports@[i].0@ && r.ports@[i].1
            == p.ports@[i].1,
{
    let mut ports: Vec<(String, u16)> = Vec::new();
    let mut i: usize = 0;
    while i < p.ports.len()
        invariant
            i <= p.ports@.len(),
            ports@.len() == i,
            forall|j: int| 0 <= j < i ==> (#[trigger] ports@[j]).0@ == p.ports@[j].0@ && ports@[j].1 == p.ports@[j].1,
        decreases p.ports@.len() - i,
    {
        ports.push((p.ports[i].0.clone(), p.ports[i].1));
        i = i + 1;
    }
    Peer {
        public_key: p.public_key.clone(),
        address: p.address.clone(),
        ports,
        message: p.message.clone(),
        recently_seen_timestamp: p.recently_seen_timestamp,
    }
}

/// An announcement about a key that is not a member's is never stored: a
/// well-formed state holds no record and no known pair for such a key.
pub proof fn non_members_never_stored(state: &DiscoveryState, k: Seq<u8>)
    requires
        state.wf(),
        !state.is_member(k),
    ensures
        !state.records_view().contains_key(k),
        forall|id: Seq<u8>| !#[trigger] state.knows((id, k)),
{
    assert forall|id: Seq<u8>| !#[trigger] state.knows((id, k)) by {
        if state.knows((id, k)) {
            assert(state.known.has((id, k)));
        }
    }
}

/// Every pair that a well-formed state knows pairs a key with the identity
/// the key derives.
pub proof fn known_pairs_consistent(state: &DiscoveryState, e: PeerPair)
    requires
        state.wf(),
        state.knows(e),
    ensures
        peer_id_of(e.1) == Some(e.0),
{
    crate::known_peers::known_peers_are_consistent(&state.known, e);
}

} // verus!
