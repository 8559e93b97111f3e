//! The table of known peers: verified pairs of identity and public key.
use crate::identity::{derive_identity, invalid_key_error, peer_id_injective, peer_id_of, PublicKeyBytes};
use vstd::string::StringExecFns;
use vstd::prelude::*;

verus! {

/// Whether two byte strings are equal.
pub fn bytes_eq(a: &Vec<u8>, b: &Vec<u8>) -> (r: bool)
    ensures
        r == (a@ == b@),
{
    if a.len() != b.len() {
        return false;
    }
    let mut i: usize = 0;
    while i < a.len()
        invariant
            a@.len() == b@.len(),
            i <= a@.len(),
            forall|j: int| 0 <= j < i ==> a@[j] == b@[j],
        decreases a@.len() - i,
    {
        if a[i] != b[i] {
            return false;
        }
        i = i + 1;
    }
    assert(a@ =~= b@);
    true
}

/// The lexicographic order on byte strings: a proper prefix comes first.
pub open spec fn lex_lt(a: Seq<u8>, b: Seq<u8>) -> bool
    decreases a.len(),
{
    if a.len() == 0 {
        b.len() > 0
    } else if b.len() == 0 {
        false
    } else if a[0] != b[0] {
        a[0] < b[0]
    } else {
        lex_lt(a.drop_first(), b.drop_first())
    }
}

proof fn lemma_lex_irreflexive(a: Seq<u8>)
    ensures
        !lex_lt(a, a),
    decreases a.len(),
{
    if a.len() > 0 {
        lemma_lex_irreflexive(a.drop_first());
    }
}

proof fn lemma_lex_transitive(a: Seq<u8>, b: Seq<u8>, c: Seq<u8>)
    requires
        lex_lt(a, b),
        lex_lt(b, c),
    ensures
        lex_lt(a, c),
    decreases a.len(),
{
    if a.len() > 0 && b.len() > 0 && c.len() > 0 && a[0] == b[0] && b[0] == c[0] {
        lemma_lex_transitive(a.drop_first(), b.drop_first(), c.drop_first());
    }
}

proof fn lemma_lex_total(a: Seq<u8>, b: Seq<u8>)
    ensures
        a == b || lex_lt(a, b) || lex_lt(b, a),
    decreases a.len(),
{
    if a.len() == 0 && b.len() == 0 {
        assert(a =~= b);
    } else if a.len() > 0 && b.len() > 0 && a[0] == b[0] {
        lemma_lex_total(a.drop_first(), b.drop_first());
        if a.drop_first() == b.drop_first() {
            assert(a.drop_first().len() == b.drop_first().len());
            assert(a =~= b) by {
                assert forall|k: int| 0 <= k < a.len() implies a[k] == b[k] by {
                    if k > 0 {
                        assert(a[k] == a.drop_first()[k - 1]);
                        assert(b[k] == b.drop_first()[k - 1]);
                    }
                }
            }
        }
    }
}

proof fn lemma_lex_asymmetric(a: Seq<u8>, b: Seq<u8>)
    requires
        lex_lt(a, b),
    ensures
        !lex_lt(b, a),
{
    if lex_lt(b, a) {
        lemma_lex_transitive(a, b, a);
        lemma_lex_irreflexive(a);
    }
}

/// Compares two byte strings: negative, zero or positive as `a` comes
/// before, equals or comes after `b`.
pub fn lex_compare(a: &Vec<u8>, b: &Vec<u8>) -> (r: i8)
    ensures
        r < 0 <==> lex_lt(a@, b@),
        r == 0 <==> a@ == b@,
        r > 0 <==> lex_lt(b@, a@),
{
    let mut i: usize = 0;
    assert(a@.skip(0) =~= a@);
    assert(b@.skip(0) =~= b@);
    while i < a.len() && i < b.len()
        invariant
            i <= a@.len(),
            i <= b@.len(),
            forall|j: int| 0 <= j < i ==> a@[j] == b@[j],
            lex_lt(a@, b@) == lex_lt(a@.skip(i as int), b@.skip(i as int)),
            lex_lt(b@, a@) == lex_lt(b@.skip(i as int), a@.skip(i as int)),
        decreases a@.len() - i,
    {
        assert(a@.skip(i as int)[0] == a@[i as int]);
        assert(b@.skip(i as int)[0] == b@[i as int]);
        if a[i] < b[i] {
            proof {
                lemma_lex_asymmetric(a@, b@);
            }
            return -1;
        }
        if a[i] > b[i] {
            proof {
                lemma_lex_asymmetric(b@, a@);
            }
            return 1;
        }
        assert(a@.skip(i as int).drop_first() =~= a@.skip(i + 1));
        assert(b@.skip(i as int).drop_first() =~= b@.skip(i + 1));
        i = i + 1;
    }
    if a.len() == b.len() {
        assert(a@ =~= b@);
        proof {
            lemma_lex_irreflexive(a@);
        }
        0
    } else if a.len() < b.len() {
        proof {
            lemma_lex_asymmetric(a@, b@);
        }
        -1
    } else {
        proof {
            lemma_lex_asymmetric(b@, a@);
        }
        1
    }
}

/// The error text for an identity that its key does not derive.
pub open spec fn mismatch_text() -> Seq<char> {
    "unmatched peer id and public key."@
}

/// The text of an error, or nothing for success.
pub open spec fn error_text(r: Result<(), String>) -> Seq<char> {
    match r {
        Err(e) => e@,
        Ok(_) => Seq::empty(),
    }
}

/// A pairing of a network identity (an encoded peer id) with a public key.
pub struct KnownPeer {
    pub id: Vec<u8>,
    pub pubkey: PublicKeyBytes,
}

/// The pair of identity and public key that a known peer holds.
pub type PeerPair = (Seq<u8>, Seq<u8>);

impl KnownPeer {
    pub open spec fn view(&self) -> PeerPair {
        (self.id@, self.pubkey@)
    }

    /// The identity is the one that the public key derives.
    pub open spec fn consistent(&self) -> bool {
        peer_id_of(self.pubkey@) == Some(self.id@)
    }

    /// Checks that the identity is the one derived from the public key. A
    /// malformed key and a mismatched identity give different errors.
    pub fn check_consistency(&self) -> (r: Result<(), String>)
        ensures
            r is Ok <==> self.consistent(),
            peer_id_of(self.pubkey@) is None ==> error_text(r) == invalid_key_error(self.pubkey@),
            peer_id_of(self.pubkey@) is Some && !self.consistent() ==> error_text(r)
                == mismatch_text(),
    {
        proof {
            reveal_strlit("unmatched peer id and public key.");
        }
        match derive_identity(&self.pubkey) {
            Ok(id) => {
                if bytes_eq(&id, &self.id) {
                    Ok(())
                } else {
                    Err(String::from_str("unmatched peer id and public key."))
                }
            },
            Err(e) => Err(e),
        }
    }

    /// A copy of the pair.
    pub fn duplicate(&self) -> (r: KnownPeer)
        ensures
            r@ == self@,
    {
        KnownPeer { id: self.id.clone(), pubkey: self.pubkey.clone() }
    }
}

/// The digits of hexadecimal, lower case.
pub open spec fn hex_digits() -> Seq<char> {
    "0123456789abcdef"@
}

/// Bytes as hexadecimal text, two digits per byte, high digit first.
pub open spec fn hex_of(b: Seq<u8>) -> Seq<char>
    decreases b.len(),
{
    if b.len() == 0 {
        Seq::empty()
    } else {
        hex_of(b.drop_last()) + seq![hex_digits()[(b.last() / 16) as int], hex_digits()[(b.last() % 16) as int]]
    }
}

/// Writes bytes as hexadecimal text.
pub fn to_hex(b: &Vec<u8>) -> (r: String)
    ensures
        r@ == hex_of(b@),
{
    let digits = "0123456789abcdef";
    proof {
        reveal_strlit("0123456789abcdef");
        reveal_strlit("");
    }
    let mut out = String::from_str("");
    let mut i: usize = 0;
    while i < b.len()
        invariant
            i <= b@.len(),
            digits@ == hex_digits(),
            digits@.len() == 16,
            out@ == hex_of(b@.subrange(0, i as int)),
        decreases b@.len() - i,
    {
        let hi: usize = (b[i] / 16) as usize;
        let lo: usize = (b[i] % 16) as usize;
        let ghost before = out@;
        out = out.concat(digits.substring_char(hi, hi + 1));
        out = out.concat(digits.substring_char(lo, lo + 1));
        proof {
            let s = b@.subrange(0, i + 1);
            assert(s.drop_last() =~= b@.subrange(0, i as int));
            assert(s.last() == b@[i as int]);
            assert(digits@.subrange(hi as int, hi + 1) =~= seq![hex_digits()[hi as int]]);
            assert(digits@.subrange(lo as int, lo + 1) =~= seq![hex_digits()[lo as int]]);
            assert(out@ =~= hex_of(s));
        }
        i = i + 1;
    }
    assert(b@.subrange(0, b@.len() as int) =~= b@);
    out
}

/// The base58 text of a peer id, or `None` where the bytes are no peer id.
pub uninterp spec fn peer_id_text(id: Seq<u8>) -> Option<Seq<char>>;

/// How an identity is written in an error: as libp2p writes the peer id, or
/// in hexadecimal where the bytes are no peer id.
pub open spec fn id_text(id: Seq<u8>) -> Seq<char> {
    match peer_id_text(id) {
        Some(t) => t,
        None => hex_of(id),
    }
}

/// Relies on libp2p's `PeerId::from_bytes` and `PeerId::to_base58` (what
/// `PeerId` displays as): a function of the bytes alone.
#[verifier::external_body]
fn peer_id_base58(id: &Vec<u8>) -> (r: Option<String>)
    ensures
        r is Some <==> peer_id_text(id@) is Some,
        r matches Some(t) ==> peer_id_text(id@) == Some(t@),
{
    libp2p::PeerId::from_bytes(id.as_slice()).ok().map(|p| p.to_base58())
}

/// The text of an identity in an error.
fn write_id(id: &Vec<u8>) -> (r: String)
    ensures
        r@ == id_text(id@),
{
    match peer_id_base58(id) {
        Some(t) => t,
        None => to_hex(id),
    }
}

/// The order of the table: by identity, then by public key.
pub open spec fn pair_lt(p: PeerPair, q: PeerPair) -> bool {
    lex_lt(p.0, q.0) || (p.0 == q.0 && lex_lt(p.1, q.1))
}

proof fn lemma_pair_transitive(p: PeerPair, q: PeerPair, r: PeerPair)
    requires
        pair_lt(p, q),
        pair_lt(q, r),
    ensures
        pair_lt(p, r),
{
    if lex_lt(p.0, q.0) && lex_lt(q.0, r.0) {
        lemma_lex_transitive(p.0, q.0, r.0);
    }
    if p.0 == q.0 && q.0 == r.0 {
        lemma_lex_irreflexive(p.0);
        lemma_lex_transitive(p.1, q.1, r.1);
    }
}

proof fn lemma_pair_total(p: PeerPair, q: PeerPair)
    ensures
        p == q || pair_lt(p, q) || pair_lt(q, p),
{
    lemma_lex_total(p.0, q.0);
    lemma_lex_total(p.1, q.1);
}

proof fn lemma_pair_irreflexive(p: PeerPair)
    ensures
        !pair_lt(p, p),
{
    lemma_lex_irreflexive(p.0);
    lemma_lex_irreflexive(p.1);
}

/// The sequence is strictly ordered.
pub open spec fn strictly_sorted(s: Seq<PeerPair>) -> bool {
    forall|i: int, j: int| 0 <= i < j < s.len() ==> pair_lt(#[trigger] s[i], #[trigger] s[j])
}

proof fn lemma_sorted_same_contents(s: Seq<PeerPair>, t: Seq<PeerPair>)
    requires
        strictly_sorted(s),
        strictly_sorted(t),
        forall|e: PeerPair| s.contains(e) <==> t.contains(e),
    ensures
        s == t,
    decreases s.len(),
{
    if s.len() == 0 {
        if t.len() > 0 {
            assert(t.contains(t[0]));
        }
        assert(s =~= t);
    } else {
        assert(s.contains(s[0]));
        let j = choose|j: int| 0 <= j < t.len() && t[j] == s[0];
        assert(t.contains(t[0]));
        let i = choose|i: int| 0 <= i < s.len() && s[i] == t[0];
        if j > 0 {
            assert(pair_lt(t[0], t[j]));
            if i > 0 {
                assert(pair_lt(s[0], s[i]));
                lemma_pair_transitive(s[0], t[0], s[0]);
            }
            lemma_pair_irreflexive(s[0]);
        }
        let s2 = s.drop_first();
        let t2 = t.drop_first();
        assert forall|e: PeerPair| s2.contains(e) <==> t2.contains(e) by {
            if s2.contains(e) {
                let a = choose|a: int| 0 <= a < s2.len() && s2[a] == e;
                assert(s[a + 1] == e);
                assert(s.contains(e));
                let b = choose|b: int| 0 <= b < t.len() && t[b] == e;
                assert(pair_lt(s[0], s[a + 1]));
                if b == 0 {
                    lemma_pair_irreflexive(e);
                }
                assert(t2[b - 1] == e);
            }
            if t2.contains(e) {
                let a = choose|a: int| 0 <= a < t2.len() && t2[a] == e;
                assert(t[a + 1] == e);
                assert(t.contains(e));
                let b = choose|b: int| 0 <= b < s.len() && s[b] == e;
                assert(pair_lt(t[0], t[a + 1]));
                if b == 0 {
                    lemma_pair_irreflexive(e);
                }
                assert(s2[b - 1] == e);
            }
        }
        assert forall|a: int, b: int| 0 <= a < b < s2.len() implies pair_lt(#[trigger] s2[a], #[trigger] s2[b]) by {
            assert(s2[a] == s[a + 1] && s2[b] == s[b + 1]);
        }
        assert forall|a: int, b: int| 0 <= a < b < t2.len() implies pair_lt(#[trigger] t2[a], #[trigger] t2[b]) by {
            assert(t2[a] == t[a + 1] && t2[b] == t[b + 1]);
        }
        lemma_sorted_same_contents(s2, t2);
        assert(s =~= t) by {
            assert forall|k: int| 0 <= k < s.len() implies s[k] == t[k] by {
                if k > 0 {
                    assert(s[k] == s2[k - 1]);
                    assert(t[k] == t2[k - 1]);
                }
            }
        }
    }
}

/// The set of peers whose identity has been checked against their key.
pub struct KnownPeers {
    peers: Vec<KnownPeer>,
}

impl KnownPeers {
    /// The pairs, in the table's order.
    pub closed spec fn view(&self) -> Seq<PeerPair> {
        self.peers@.map_values(|p: KnownPeer| p@)
    }

    /// Whether the table holds the pair.
    pub open spec fn has(&self, pair: PeerPair) -> bool {
        self@.contains(pair)
    }

    /// Every entry is consistent, and the entries are strictly ordered.
    pub closed spec fn wf(&self) -> bool {
        &&& forall|i: int| 0 <= i < self.peers@.len() ==> #[trigger] self.peers@[i].consistent()
        &&& forall|i: int, j: int| 0 <= i < j < self.peers@.len() ==> pair_lt(#[trigger] self@[i], #[trigger] self@[j])
    }

    /// The entries of a well-formed table are strictly ordered, by identity
    /// and then by key, and each pairs a key with the identity it derives.
    pub proof fn lemma_ordered(&self)
        requires
            self.wf(),
        ensures
            forall|i: int, j: int| 0 <= i < j < self@.len() ==> pair_lt(#[trigger] self@[i], #[trigger] self@[j]),
            forall|i: int| 0 <= i < self@.len() ==> peer_id_of((#[trigger] self@[i]).1) == Some(self@[i].0),
    {
        assert forall|i: int| 0 <= i < self@.len() implies peer_id_of((#[trigger] self@[i]).1) == Some(self@[i].0) by {
            assert(self.peers@[i].consistent());
        }
    }

    /// A well-formed table holds no pair twice.
    pub proof fn lemma_no_duplicates(&self)
        requires
            self.wf(),
        ensures
            self@.no_duplicates(),
    {
        assert forall|i: int, j: int| 0 <= i < self@.len() && 0 <= j < self@.len() && i != j implies self@[i]
            != self@[j] by {
            if i < j {
                assert(pair_lt(self@[i], self@[j]));
            } else {
                assert(pair_lt(self@[j], self@[i]));
            }
            lemma_pair_irreflexive(self@[i]);
        }
    }

    /// An empty table.
    pub fn new() -> (r: Self)
        ensures
            r.wf(),
            r@ == Seq::<PeerPair>::empty(),
    {
        KnownPeers { peers: Vec::new() }
    }

    /// The number of entries.
    pub fn len(&self) -> (r: usize)
        ensures
            r == self@.len(),
    {
        self.peers.len()
    }

    /// Where the pair belongs: the first position whose entry does not come
    /// before it.
    fn slot(&self, pair: &KnownPeer) -> (r: usize)
        requires
            self.wf(),
        ensures
            r <= self@.len(),
            forall|j: int| 0 <= j < r ==> pair_lt(#[trigger] self@[j], pair@),
            r < self@.len() ==> !pair_lt(self@[r as int], pair@),
    {
        let mut i: usize = 0;
        while i < self.peers.len()
            invariant
                i <= self.peers@.len(),
                forall|j: int| 0 <= j < i ==> pair_lt(#[trigger] self@[j], pair@),
            decreases self.peers@.len() - i,
        {
            let p = &self.peers[i];
            assert(self@[i as int] == p@);
            let c = lex_compare(&p.id, &pair.id);
            let before = c < 0 || (c == 0 && lex_compare(&p.pubkey, &pair.pubkey) < 0);
            if !before {
                return i;
            }
            i = i + 1;
        }
        i
    }

    /// Inserts a checked pair in its place; a pair that is already held is
    /// not added again. A pair whose identity is not the one its key derives
    /// is refused and leaves the table as it was.
    pub fn insert_pair(&mut self, peer: KnownPeer) -> (r: Result<(), String>)
        requires
            old(self).wf(),
        ensures
            final(self).wf(),
            r is Ok <==> peer.consistent(),
            r is Ok ==> forall|e: PeerPair| #[trigger]
                final(self).has(e) <==> old(self).has(e) || e == peer@,
            r is Ok && old(self).has(peer@) ==> final(self)@ == old(self)@,
            r is Ok && !old(self).has(peer@) ==> final(self)@.len() == old(self)@.len() + 1,
            r is Err ==> final(self)@ == old(self)@,
    {
        match peer.check_consistency() {
            Err(e) => Err(e),
            Ok(()) => {
                let i = self.slot(&peer);
                if i < self.peers.len() && bytes_eq(&self.peers[i].id, &peer.id) && bytes_eq(
                    &self.peers[i].pubkey,
                    &peer.pubkey,
                ) {
                    assert(self@[i as int] == self.peers@[i as int]@);
                    return Ok(());
                }
                let ghost before = self@;
                let ghost p = peer@;
                proof {
                    if i < before.len() {
                        assert(before[i as int] == self.peers@[i as int]@);
                        lemma_pair_total(before[i as int], p);
                        assert(pair_lt(p, before[i as int]));
                    }
                    assert forall|j: int| 0 <= j < before.len() implies before[j] != p by {
                        if j < i {
                            assert(pair_lt(before[j], p));
                            lemma_pair_irreflexive(p);
                        } else {
                            if j > i {
                                assert(pair_lt(before[i as int], before[j]));
                                lemma_pair_transitive(p, before[i as int], before[j]);
                            }
                            lemma_pair_irreflexive(p);
                        }
                    }
                }
                self.peers.insert(i, peer);
                let ghost after = self@;
                assert(after =~= before.insert(i as int, p));
                proof {
                    assert forall|a: int, b: int| 0 <= a < b < self.peers@.len() implies pair_lt(
                        #[trigger] self@[a],
                        #[trigger] self@[b],
                    ) by {
                        if b < i {
                        } else if b == i {
                        } else if a < i {
                            assert(after[b] == before[b - 1]);
                            if b - 1 > i {
                                assert(pair_lt(before[i as int], before[b - 1]));
                                lemma_pair_transitive(p, before[i as int], before[b - 1]);
                            }
                            lemma_pair_transitive(before[a], p, before[b - 1]);
                        } else if a == i {
                            if b - 1 > i {
                                assert(pair_lt(before[i as int], before[b - 1]));
                                lemma_pair_transitive(p, before[i as int], before[b - 1]);
                            }
                        } else {
                            assert(pair_lt(before[a - 1], before[b - 1]));
                        }
                    }
                    assert forall|k: int| 0 <= k < self.peers@.len() implies #[trigger] self.peers@[k].consistent() by {
                        if k < i {
                            assert(self.peers@[k] == old(self).peers@[k]);
                        } else if k > i {
                            assert(self.peers@[k] == old(self).peers@[k - 1]);
                        }
                    }
                    assert forall|e: PeerPair| #[trigger]
                        self.has(e) <==> before.contains(e) || e == p by {
                        if self.has(e) {
                            let k = choose|k: int| 0 <= k < after.len() && after[k] == e;
                            if k < i {
                                assert(before[k] == e);
                            } else if k > i {
                                assert(before[k - 1] == e);
                            }
                        }
                        if before.contains(e) {
                            let k = choose|k: int| 0 <= k < before.len() && before[k] == e;
                            if k < i {
                                assert(after[k] == e);
                            } else {
                                assert(after[k + 1] == e);
                            }
                        }
                        if e == p {
                            assert(after[i as int] == e);
                        }
                    }
                }
                Ok(())
            },
        }
    }

    /// Derives the identity of the key and inserts the pair. Fails, leaving
    /// the table as it was, where the bytes are no public key.
    pub fn insert(&mut self, pubkey: PublicKeyBytes) -> (r: Result<(), String>)
        requires
            old(self).wf(),
        ensures
            final(self).wf(),
            r is Ok <==> peer_id_of(pubkey@) is Some,
            r is Ok ==> forall|e: PeerPair| #[trigger]
                final(self).has(e) <==> old(self).has(e) || e == (
                peer_id_of(pubkey@)->0,
                pubkey@,
            ),
            r is Ok && old(self).has((peer_id_of(pubkey@)->0, pubkey@)) ==> final(self)@ == old(self)@,
            r is Ok && !old(self).has((peer_id_of(pubkey@)->0, pubkey@)) ==> final(self)@.len() == old(self)@.len()
                + 1,
            r is Err ==> final(self)@ == old(self)@,
            r matches Err(e) ==> e@ == invalid_key_error(pubkey@),
    {
        match derive_identity(&pubkey) {
            Err(e) => Err(e),
            Ok(id) => {
                let peer = KnownPeer { id, pubkey };
                self.insert_pair(peer)
            },
        }
    }

    /// In a well-formed table identities never decrease.
    proof fn lemma_ids_ordered(&self, i: int, j: int)
        requires
            self.wf(),
            0 <= i < j < self@.len(),
        ensures
            lex_lt(self@[i].0, self@[j].0) || self@[i].0 == self@[j].0,
    {
        assert(pair_lt(self@[i], self@[j]));
    }

    /// The public key held for an identity, found by binary search.
    pub fn get_public_key(&self, id: &Vec<u8>) -> (r: Result<PublicKeyBytes, String>)
        requires
            self.wf(),
        ensures
            r matches Ok(pk) ==> self.has((id@, pk@)),
            r matches Ok(pk) ==> forall|k: Seq<u8>| #[trigger] self.has((id@, k)) ==> k == pk@,
            r is Err <==> !exists|pk: Seq<u8>| self.has((id@, pk)),
            r matches Err(e) ==> e@ == "no such id: "@ + id_text(id@),
    {
        let mut lo: usize = 0;
        let mut hi: usize = self.peers.len();
        while lo < hi
            invariant
                self.wf(),
                lo <= hi <= self@.len(),
                forall|k: int| 0 <= k < lo ==> lex_lt(#[trigger] self@[k].0, id@),
                forall|k: int| hi <= k < self@.len() ==> !lex_lt(#[trigger] self@[k].0, id@),
            decreases hi - lo,
        {
            let mid = lo + (hi - lo) / 2;
            assert(self@[mid as int] == self.peers@[mid as int]@);
            if lex_compare(&self.peers[mid].id, id) < 0 {
                proof {
                    assert forall|k: int| 0 <= k <= mid implies lex_lt(#[trigger] self@[k].0, id@) by {
                        if k < mid {
                            self.lemma_ids_ordered(k, mid as int);
                            if lex_lt(self@[k].0, self@[mid as int].0) {
                                lemma_lex_transitive(self@[k].0, self@[mid as int].0, id@);
                            }
                        }
                    }
                }
                lo = mid + 1;
            } else {
                proof {
                    assert forall|k: int| mid <= k < self@.len() implies !lex_lt(#[trigger] self@[k].0, id@) by {
                        if k > mid {
                            self.lemma_ids_ordered(mid as int, k);
                            if lex_lt(self@[k].0, id@) && lex_lt(self@[mid as int].0, self@[k].0) {
                                lemma_lex_transitive(self@[mid as int].0, self@[k].0, id@);
                            }
                        }
                    }
                }
                hi = mid;
            }
        }
        if lo < self.peers.len() && bytes_eq(&self.peers[lo].id, id) {
            assert(self@[lo as int] == self.peers@[lo as int]@);
            assert(self.has((id@, self@[lo as int].1)));
            proof {
                self.lemma_ordered();
                assert forall|k: Seq<u8>| #[trigger] self.has((id@, k)) implies k == self@[lo as int].1 by {
                    let j = choose|j: int| 0 <= j < self@.len() && self@[j] == (id@, k);
                    assert(peer_id_of(self@[j].1) == Some(self@[j].0));
                    assert(peer_id_of(self@[lo as int].1) == Some(self@[lo as int].0));
                    peer_id_injective(k, self@[lo as int].1);
                }
            }
            return Ok(self.peers[lo].pubkey.clone());
        }
        proof {
            assert forall|pk: Seq<u8>| !self.has((id@, pk)) by {
                if self.has((id@, pk)) {
                    let k = choose|k: int| 0 <= k < self@.len() && self@[k] == (id@, pk);
                    lemma_lex_irreflexive(id@);
                    assert(self@[k].0 == id@);
                    if k < lo {
                        assert(lex_lt(self@[k].0, id@));
                    } else if k > lo {
                        assert(self@[lo as int] == self.peers@[lo as int]@);
                        assert(!lex_lt(self@[lo as int].0, id@));
                        self.lemma_ids_ordered(lo as int, k);
                        lemma_lex_total(self@[lo as int].0, id@);
                        if lex_lt(self@[lo as int].0, id@) {
                        } else if lex_lt(id@, self@[lo as int].0) {
                            lemma_lex_asymmetric(id@, self@[lo as int].0);
                        }
                    } else if k == lo {
                        assert(self@[lo as int] == self.peers@[lo as int]@);
                    }
                }
            }
        }
        proof {
            reveal_strlit("no such id: ");
        }
        Err(String::from_str("no such id: ").concat(write_id(id).as_str()))
    }

    /// The identity held for a public key.
    pub fn get_peer_id(&self, pubkey: &PublicKeyBytes) -> (r: Result<Vec<u8>, String>)
        ensures
            r matches Ok(id) ==> self.has((id@, pubkey@)),
            r is Err <==> !exists|id: Seq<u8>| self.has((id, pubkey@)),
            r matches Err(e) ==> e@ == "no such public key: "@ + hex_of(pubkey@),
    {
        let mut i: usize = 0;
        while i < self.peers.len()
            invariant
                i <= self.peers@.len(),
                forall|j: int| 0 <= j < i ==> self@[j].1 != pubkey@,
            decreases self.peers@.len() - i,
        {
            if bytes_eq(&self.peers[i].pubkey, pubkey) {
                assert(self@[i as int] == self.peers@[i as int]@);
                assert(self.has((self@[i as int].0, pubkey@)));
                return Ok(self.peers[i].id.clone());
            }
            i = i + 1;
        }
        proof {
            reveal_strlit("no such public key: ");
        }
        Err(String::from_str("no such public key: ").concat(to_hex(pubkey).as_str()))
    }

    /// A copy of the entries, in the table's order.
    pub fn snapshot(&self) -> (r: Vec<KnownPeer>)
        ensures
            r@.len() == self@.len(),
            forall|i: int| 0 <= i < r@.len() ==> #[trigger] r@[i]@ == self@[i],
    {
        let mut out: Vec<KnownPeer> = Vec::new();
        let mut i: usize = 0;
        while i < self.peers.len()
            invariant
                i <= self.peers@.len(),
                out@.len() == i,
                forall|j: int| 0 <= j < i ==> #[trigger] out@[j]@ == self@[j],
            decreases self.peers@.len() - i,
        {
            out.push(self.peers[i].duplicate());
            i = i + 1;
        }
        out
    }

    /// The public keys of the entries, in the table's order.
    pub fn public_keys(&self) -> (r: Vec<PublicKeyBytes>)
        ensures
            r@.len() == self@.len(),
            forall|i: int| 0 <= i < r@.len() ==> #[trigger] r@[i]@ == self@[i].1,
    {
        let mut out: Vec<PublicKeyBytes> = Vec::new();
        let mut i: usize = 0;
        while i < self.peers.len()
            invariant
                i <= self.peers@.len(),
                out@.len() == i,
                forall|j: int| 0 <= j < i ==> #[trigger] out@[j]@ == self@[j].1,
            decreases self.peers@.len() - i,
        {
            out.push(self.peers[i].pubkey.clone());
            i = i + 1;
        }
        out
    }
}

/// Two well-formed tables that hold the same pairs are the same sequence:
/// whatever order the insertions came in, the table ends up the same.
pub proof fn same_pairs_same_table(a: &KnownPeers, b: &KnownPeers)
    requires
        a.wf(),
        b.wf(),
        forall|e: PeerPair| #[trigger] a.has(e) <==> b.has(e),
    ensures
        a@ == b@,
{
    a.lemma_ordered();
    b.lemma_ordered();
    assert forall|e: PeerPair| a@.contains(e) <==> b@.contains(e) by {
        assert(a.has(e) <==> b.has(e));
    }
    lemma_sorted_same_contents(a@, b@);
}

/// Every entry of a well-formed table pairs a key with the identity that the
/// key derives.
pub proof fn known_peers_are_consistent(table: &KnownPeers, e: PeerPair)
    requires
        table.wf(),
        table.has(e),
    ensures
        peer_id_of(e.1) == Some(e.0),
{
    let k = choose|k: int| 0 <= k < table@.len() && table@[k] == e;
    assert(table.peers@[k].consistent());
}

} // verus!
