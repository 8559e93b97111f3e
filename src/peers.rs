//! Liveness records: one record per member that the node has learned about.
use crate::identity::PublicKeyBytes;
use crate::known_peers::bytes_eq;
use vstd::prelude::*;

verus! {

/// What the node knows of a member's reachability.
pub struct Peer {
    pub public_key: PublicKeyBytes,
    /// The socket address, as text (`host:port`).
    pub address: String,
    /// The ports that the member offers, by capability name.
    pub ports: Vec<(String, u16)>,
    /// A free-form status text.
    pub message: String,
    /// When the member was last observed, in milliseconds.
    pub recently_seen_timestamp: u64,
}

/// The records, keyed by public key, as a map.
pub open spec fn records_view(s: Seq<Peer>) -> Map<Seq<u8>, Peer> {
    Map::new(
        |k: Seq<u8>| exists|i: int| 0 <= i < s.len() && #[trigger] s[i].public_key@ == k,
        |k: Seq<u8>| s[choose|i: int| 0 <= i < s.len() && #[trigger] s[i].public_key@ == k],
    )
}

/// No two records are about the same key.
pub open spec fn keys_unique(s: Seq<Peer>) -> bool {
    forall|i: int, j: int|
        0 <= i < s.len() && 0 <= j < s.len() && i != j ==> #[trigger] s[i].public_key@ != #[trigger] s[j].public_key@
}

/// The records after an observation is merged: an observation of an unknown
/// member adds its record; one of a known member replaces the record only if
/// it is strictly newer.
pub open spec fn merge_spec(m: Map<Seq<u8>, Peer>, p: Peer) -> Map<Seq<u8>, Peer> {
    if m.contains_key(p.public_key@) && p.recently_seen_timestamp
        <= m[p.public_key@].recently_seen_timestamp {
        m
    } else {
        m.insert(p.public_key@, p)
    }
}

/// A record seen at `seen` is recent at `now` when `now - seen <= threshold`.
pub open spec fn is_recent(seen: u64, now: u64, threshold: u64) -> bool {
    now <= seen + threshold
}

proof fn lemma_view_at(s: Seq<Peer>, i: int)
    requires
        keys_unique(s),
        0 <= i < s.len(),
    ensures
        records_view(s).contains_key(s[i].public_key@),
        records_view(s)[s[i].public_key@] == s[i],
{
    let k = s[i].public_key@;
    assert(records_view(s).contains_key(k));
    let j = choose|j: int| 0 <= j < s.len() && #[trigger] s[j].public_key@ == k;
    assert(j == i);
}

/// The records of a member.
pub struct PeerRecords {
    records: Vec<Peer>,
}

impl PeerRecords {
    pub closed spec fn view(&self) -> Map<Seq<u8>, Peer> {
        records_view(self.records@)
    }

    pub closed spec fn wf(&self) -> bool {
        keys_unique(self.records@)
    }

    /// No records.
    pub fn new() -> (r: Self)
        ensures
            r.wf(),
            r@ == Map::<Seq<u8>, Peer>::empty(),
    {
        let r = PeerRecords { records: Vec::new() };
        assert(r@ =~= Map::<Seq<u8>, Peer>::empty());
        r
    }

    fn position(&self, key: &Vec<u8>) -> (r: Option<usize>)
        ensures
            r matches Some(i) ==> i < self.records@.len() && self.records@[i as int].public_key@
                == key@,
            r is None ==> !self@.contains_key(key@),
    {
        let mut i: usize = 0;
        while i < self.records.len()
            invariant
                i <= self.records@.len(),
                forall|j: int| 0 <= j < i ==> self.records@[j].public_key@ != key@,
            decreases self.records@.len() - i,
        {
            if bytes_eq(&self.records[i].public_key, key) {
                return Some(i);
            }
            i = i + 1;
        }
        None
    }

    /// The last-seen time of a member, if there is a record of it.
    pub fn last_seen(&self, key: &Vec<u8>) -> (r: Option<u64>)
        requires
            self.wf(),
        ensures
            r is Some <==> self@.contains_key(key@),
            r matches Some(t) ==> t == self@[key@].recently_seen_timestamp,
    {
        match self.position(key) {
            Some(i) => {
                proof {
                    lemma_view_at(self.records@, i as int);
                }
                Some(self.records[i].recently_seen_timestamp)
            },
            None => None,
        }
    }

    /// Merges an observation: the record keeps the newest observation, and an
    /// older or equally old one is ignored.
    pub fn merge(&mut self, peer: Peer)
        requires
            old(self).wf(),
        ensures
            final(self).wf(),
            final(self)@ == merge_spec(old(self)@, peer),
    {
        let ghost s = self.records@;
        let ghost k = peer.public_key@;
        match self.position(&peer.public_key) {
            Some(i) => {
                proof {
                    lemma_view_at(s, i as int);
                }
                if peer.recently_seen_timestamp > self.records[i].recently_seen_timestamp {
                    self.records.set(i, peer);
                    let ghost s2 = self.records@;
                    assert(s2 == s.update(i as int, peer));
                    assert(keys_unique(s2)) by {
                        assert forall|a: int, b: int|
                            0 <= a < s2.len() && 0 <= b < s2.len() && a != b implies #[trigger] s2[a].public_key@
                            != #[trigger] s2[b].public_key@ by {
                            assert(s[a].public_key@ == s2[a].public_key@);
                            assert(s[b].public_key@ == s2[b].public_key@);
                        }
                    }
                    assert(records_view(s2) =~= records_view(s).insert(k, peer)) by {
                        assert forall|key: Seq<u8>|
                            records_view(s2).contains_key(key) <==> #[trigger] records_view(
                                s,
                            ).insert(k, peer).contains_key(key) by {
                            if records_view(s2).contains_key(key) {
                                let j = choose|j: int|
                                    0 <= j < s2.len() && #[trigger] s2[j].public_key@ == key;
                                assert(s[j].public_key@ == key);
                            }
                            if records_view(s).contains_key(key) {
                                let j = choose|j: int|
                                    0 <= j < s.len() && #[trigger] s[j].public_key@ == key;
                                assert(s2[j].public_key@ == key);
                            }
                        }
                        assert forall|key: Seq<u8>| #[trigger]
                            records_view(s2).contains_key(key) implies records_view(s2)[key]
                            == records_view(s).insert(k, peer)[key] by {
                            let j = choose|j: int|
                                0 <= j < s2.len() && #[trigger] s2[j].public_key@ == key;
                            lemma_view_at(s2, j);
                            if j != i {
                                lemma_view_at(s, j);
                            }
                        }
                    }
                }
            },
            None => {
                self.records.push(peer);
                let ghost s2 = self.records@;
                assert(s2 == s.push(peer));
                assert(keys_unique(s2)) by {
                    assert forall|a: int, b: int|
                        0 <= a < s2.len() && 0 <= b < s2.len() && a != b implies #[trigger] s2[a].public_key@
                        != #[trigger] s2[b].public_key@ by {
                        if a < s.len() && b < s.len() {
                            assert(s[a] == s2[a] && s[b] == s2[b]);
                        } else if a < s.len() {
                            assert(s[a] == s2[a]);
                            assert(records_view(s).contains_key(s[a].public_key@));
                        } else {
                            assert(s[b] == s2[b]);
                            assert(records_view(s).contains_key(s[b].public_key@));
                        }
                    }
                }
                assert(records_view(s2) =~= records_view(s).insert(k, peer)) by {
                    assert forall|key: Seq<u8>|
                        records_view(s2).contains_key(key) <==> #[trigger] records_view(
                            s,
                        ).insert(k, peer).contains_key(key) by {
                        if records_view(s2).contains_key(key) {
                            let j = choose|j: int|
                                0 <= j < s2.len() && #[trigger] s2[j].public_key@ == key;
                            if j < s.len() {
                                assert(s[j].public_key@ == key);
                            }
                        }
                        if records_view(s).contains_key(key) {
                            let j = choose|j: int|
                                0 <= j < s.len() && #[trigger] s[j].public_key@ == key;
                            assert(s2[j].public_key@ == key);
                        }
                        if key == k {
                            assert(s2[s.len() as int].public_key@ == key);
                        }
                    }
                    assert forall|key: Seq<u8>| #[trigger]
                        records_view(s2).contains_key(key) implies records_view(s2)[key]
                        == records_view(s).insert(k, peer)[key] by {
                        let j = choose|j: int|
                            0 <= j < s2.len() && #[trigger] s2[j].public_key@ == key;
                        lemma_view_at(s2, j);
                        if j < s.len() {
                            assert(s[j] == s2[j]);
                            lemma_view_at(s, j);
                        }
                    }
                }
            },
        }
    }

    /// Whether the member with this key counts as recently seen: it has a
    /// record, is not the node itself, and was seen within the horizon.
    pub open spec fn counts_as_seen(&self, k: Seq<u8>, now: u64, threshold: u64, own: Seq<u8>) -> bool {
        &&& self@.contains_key(k)
        &&& k != own
        &&& is_recent(self@[k].recently_seen_timestamp, now, threshold)
    }

    /// The keys of the members seen within `threshold` milliseconds before
    /// `now`, the node's own key excluded, each once.
    pub fn recently_seen(&self, now: u64, threshold: u64, own_key: &PublicKeyBytes) -> (r: Vec<
        PublicKeyBytes,
    >)
        requires
            self.wf(),
        ensures
            forall|i: int| 0 <= i < r@.len() ==> self.counts_as_seen(#[trigger] r@[i]@, now, threshold, own_key@),
            forall|k: Seq<u8>| #[trigger]
                self.counts_as_seen(k, now, threshold, own_key@) ==> exists|i: int|
                    0 <= i < r@.len() && #[trigger] r@[i]@ == k,
            forall|i: int, j: int|
                0 <= i < r@.len() && 0 <= j < r@.len() && i != j ==> #[trigger] r@[i]@ != #[trigger] r@[j]@,
    {
        let ghost s = self.records@;
        let ghost mut idx: Seq<int> = Seq::empty();
        let mut out: Vec<PublicKeyBytes> = Vec::new();
        let mut i: usize = 0;
        while i < self.records.len()
            invariant
                s == self.records@,
                keys_unique(s),
                i <= s.len(),
                idx.len() == out@.len(),
                forall|a: int| 0 <= a < idx.len() ==> 0 <= #[trigger] idx[a] < i,
                forall|a: int| 0 <= a < idx.len() ==> out@[a]@ == s[#[trigger] idx[a]].public_key@,
                forall|a: int, b: int| 0 <= a < b < idx.len() ==> #[trigger] idx[a] < #[trigger] idx[b],
                forall|a: int| 0 <= a < out@.len() ==> self.counts_as_seen(#[trigger] out@[a]@, now, threshold, own_key@),
                forall|j: int| 0 <= j < i && self.counts_as_seen(#[trigger] s[j].public_key@, now, threshold, own_key@)
                    ==> exists|a: int| 0 <= a < out@.len() && #[trigger] out@[a]@ == s[j].public_key@,
            decreases s.len() - i,
        {
            let p = &self.records[i];
            proof {
                lemma_view_at(s, i as int);
            }
            let seen = p.recently_seen_timestamp;
            let recent = now <= seen || now - seen <= threshold;
            if recent && !bytes_eq(&p.public_key, own_key) {
                let ghost before = out@;
                out.push(p.public_key.clone());
                proof {
                    idx = idx.push(i as int);
                    assert(out@[before.len() as int]@ == s[i as int].public_key@);
                    assert forall|j: int| 0 <= j <= i && self.counts_as_seen(#[trigger] s[j].public_key@, now, threshold, own_key@)
                        implies exists|a: int| 0 <= a < out@.len() && #[trigger] out@[a]@ == s[j].public_key@ by {
                        if j < i {
                            let a = choose|a: int| 0 <= a < before.len() && #[trigger] before[a]@ == s[j].public_key@;
                            assert(out@[a] == before[a]);
                        } else {
                            assert(out@[before.len() as int]@ == s[j].public_key@);
                        }
                    }
                }
            }
            i = i + 1;
        }
        proof {
            assert forall|k: Seq<u8>| #[trigger]
                self.counts_as_seen(k, now, threshold, own_key@) implies exists|a: int|
                    0 <= a < out@.len() && #[trigger] out@[a]@ == k by {
                let j = choose|j: int| 0 <= j < s.len() && #[trigger] s[j].public_key@ == k;
                assert(self.counts_as_seen(s[j].public_key@, now, threshold, own_key@));
            }
            assert forall|a: int, b: int|
                0 <= a < out@.len() && 0 <= b < out@.len() && a != b implies #[trigger] out@[a]@ != #[trigger] out@[b]@ by {
                if a < b {
                    assert(idx[a] < idx[b]);
                } else {
                    assert(idx[b] < idx[a]);
                }
            }
        }
        out
    }
}

/// A merged observation never sets a member's last-seen time back: after the
/// merge it is the later of the recorded time and the observed one.
pub proof fn merge_keeps_latest(m: Map<Seq<u8>, Peer>, p: Peer)
    requires
        m.contains_key(p.public_key@),
    ensures
        merge_spec(m, p)[p.public_key@].recently_seen_timestamp >= m[p.public_key@].recently_seen_timestamp,
        merge_spec(m, p)[p.public_key@].recently_seen_timestamp >= p.recently_seen_timestamp,
        merge_spec(m, p).dom() == m.dom(),
{
    if !(p.recently_seen_timestamp <= m[p.public_key@].recently_seen_timestamp) {
        assert(merge_spec(m, p).dom() =~= m.dom());
    }
}

} // verus!
