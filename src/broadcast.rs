//! The decisions of the acknowledged broadcast: which payloads are relayed
//! to whom, and which members are confirmed to hold each payload.
use crate::identity::PublicKeyBytes;
use crate::known_peers::bytes_eq;
use vstd::prelude::*;

verus! {

/// The identifier that ties together the relays and acknowledgements of one
/// payload.
pub type BroadcastToken = u64;

/// The state of one payload that this node originated or relayed.
pub struct BroadcastMessageInfo {
    pub token: BroadcastToken,
    pub message: Vec<u8>,
    /// The members confirmed to hold the payload.
    pub relayed_nodes: Vec<PublicKeyBytes>,
}

/// The keys that a list holds, as a set.
pub open spec fn key_set(keys: Seq<Vec<u8>>) -> Set<Seq<u8>> {
    Set::new(|k: Seq<u8>| exists|j: int| 0 <= j < keys.len() && #[trigger] keys[j]@ == k)
}

/// A payload and the set of members confirmed to hold it.
pub type MessageView = (Seq<u8>, Set<Seq<u8>>);

pub open spec fn info_view(r: BroadcastMessageInfo) -> MessageView {
    (r.message@, key_set(r.relayed_nodes@))
}

/// The records, keyed by token.
pub open spec fn messages_view(s: Seq<BroadcastMessageInfo>) -> Map<BroadcastToken, MessageView> {
    Map::new(
        |t: BroadcastToken| exists|i: int| 0 <= i < s.len() && #[trigger] s[i].token == t,
        |t: BroadcastToken| info_view(s[choose|i: int| 0 <= i < s.len() && #[trigger] s[i].token == t]),
    )
}

/// No two records share a token.
pub open spec fn tokens_unique(s: Seq<BroadcastMessageInfo>) -> bool {
    forall|i: int, j: int|
        0 <= i < s.len() && 0 <= j < s.len() && i != j ==> #[trigger] s[i].token != #[trigger] s[j].token
}

/// The records after an acknowledgement of `token` from `from`.
pub open spec fn ack_spec(m: Map<BroadcastToken, MessageView>, token: BroadcastToken, from: Seq<u8>) -> Map<
    BroadcastToken,
    MessageView,
> {
    if m.contains_key(token) {
        m.insert(token, (m[token].0, m[token].1.insert(from)))
    } else {
        m
    }
}

proof fn lemma_view_at(s: Seq<BroadcastMessageInfo>, i: int)
    requires
        tokens_unique(s),
        0 <= i < s.len(),
    ensures
        messages_view(s).contains_key(s[i].token),
        messages_view(s)[s[i].token] == info_view(s[i]),
{
    let t = s[i].token;
    assert(messages_view(s).contains_key(t));
    let j = choose|j: int| 0 <= j < s.len() && #[trigger] s[j].token == t;
    assert(j == i);
}

proof fn lemma_update(s: Seq<BroadcastMessageInfo>, i: int, r: BroadcastMessageInfo)
    requires
        tokens_unique(s),
        0 <= i < s.len(),
        r.token == s[i].token,
    ensures
        tokens_unique(s.update(i, r)),
        messages_view(s.update(i, r)) == messages_view(s).insert(r.token, info_view(r)),
{
    let s2 = s.update(i, r);
    assert forall|a: int, b: int| 0 <= a < s2.len() && 0 <= b < s2.len() && a != b implies #[trigger] s2[a].token
        != #[trigger] s2[b].token by {
        assert(s[a].token == s2[a].token);
        assert(s[b].token == s2[b].token);
    }
    assert forall|t: BroadcastToken| messages_view(s2).contains_key(t) <==> #[trigger] messages_view(s).insert(
        r.token,
        info_view(r),
    ).contains_key(t) by {
        if messages_view(s2).contains_key(t) {
            let j = choose|j: int| 0 <= j < s2.len() && #[trigger] s2[j].token == t;
            assert(s[j].token == t);
        }
        if messages_view(s).contains_key(t) {
            let j = choose|j: int| 0 <= j < s.len() && #[trigger] s[j].token == t;
            assert(s2[j].token == t);
        }
        if t == r.token {
            assert(s2[i].token == t);
        }
    }
    assert forall|t: BroadcastToken| #[trigger] messages_view(s2).contains_key(t) implies messages_view(s2)[t]
        == messages_view(s).insert(r.token, info_view(r))[t] by {
        let j = choose|j: int| 0 <= j < s2.len() && #[trigger] s2[j].token == t;
        lemma_view_at(s2, j);
        if j != i {
            lemma_view_at(s, j);
        }
    }
    assert(messages_view(s2) =~= messages_view(s).insert(r.token, info_view(r)));
}

proof fn lemma_push(s: Seq<BroadcastMessageInfo>, r: BroadcastMessageInfo)
    requires
        tokens_unique(s),
        !messages_view(s).contains_key(r.token),
    ensures
        tokens_unique(s.push(r)),
        messages_view(s.push(r)) == messages_view(s).insert(r.token, info_view(r)),
{
    let s2 = s.push(r);
    assert forall|a: int, b: int| 0 <= a < s2.len() && 0 <= b < s2.len() && a != b implies #[trigger] s2[a].token
        != #[trigger] s2[b].token by {
        if a < s.len() && b < s.len() {
            assert(s[a] == s2[a] && s[b] == s2[b]);
        } else if a < s.len() {
            assert(s[a] == s2[a]);
            assert(messages_view(s).contains_key(s[a].token));
        } else {
            assert(s[b] == s2[b]);
            assert(messages_view(s).contains_key(s[b].token));
        }
    }
    assert forall|t: BroadcastToken| messages_view(s2).contains_key(t) <==> #[trigger] messages_view(s).insert(
        r.token,
        info_view(r),
    ).contains_key(t) by {
        if messages_view(s2).contains_key(t) {
            let j = choose|j: int| 0 <= j < s2.len() && #[trigger] s2[j].token == t;
            if j < s.len() {
                assert(s[j].token == t);
            }
        }
        if messages_view(s).contains_key(t) {
            let j = choose|j: int| 0 <= j < s.len() && #[trigger] s[j].token == t;
            assert(s2[j].token == t);
        }
        if t == r.token {
            assert(s2[s.len() as int].token == t);
        }
    }
    assert forall|t: BroadcastToken| #[trigger] messages_view(s2).contains_key(t) implies messages_view(s2)[t]
        == messages_view(s).insert(r.token, info_view(r))[t] by {
        let j = choose|j: int| 0 <= j < s2.len() && #[trigger] s2[j].token == t;
        lemma_view_at(s2, j);
        if j < s.len() {
            assert(s[j] == s2[j]);
            lemma_view_at(s, j);
        }
    }
    assert(messages_view(s2) =~= messages_view(s).insert(r.token, info_view(r)));
}

proof fn lemma_remove(s: Seq<BroadcastMessageInfo>, i: int)
    requires
        tokens_unique(s),
        0 <= i < s.len(),
    ensures
        tokens_unique(s.remove(i)),
        messages_view(s.remove(i)) == messages_view(s).remove(s[i].token),
{
    let s2 = s.remove(i);
    let t0 = s[i].token;
    assert forall|a: int| 0 <= a < s2.len() implies #[trigger] s2[a] == (if a < i { s[a] } else { s[a + 1] }) by {}
    assert forall|a: int, b: int| 0 <= a < s2.len() && 0 <= b < s2.len() && a != b implies #[trigger] s2[a].token
        != #[trigger] s2[b].token by {
        let a1 = if a < i { a } else { a + 1 };
        let b1 = if b < i { b } else { b + 1 };
        assert(s2[a] == s[a1] && s2[b] == s[b1]);
    }
    assert forall|t: BroadcastToken| messages_view(s2).contains_key(t) <==> #[trigger] messages_view(s).remove(t0).contains_key(t) by {
        if messages_view(s2).contains_key(t) {
            let j = choose|j: int| 0 <= j < s2.len() && #[trigger] s2[j].token == t;
            let j1 = if j < i { j } else { j + 1 };
            assert(s[j1].token == t);
            assert(j1 != i);
        }
        if messages_view(s).remove(t0).contains_key(t) {
            let j = choose|j: int| 0 <= j < s.len() && #[trigger] s[j].token == t;
            assert(j != i);
            let j2 = if j < i { j } else { j - 1 };
            assert(s2[j2].token == t);
        }
    }
    assert forall|t: BroadcastToken| #[trigger] messages_view(s2).contains_key(t) implies messages_view(s2)[t]
        == messages_view(s).remove(t0)[t] by {
        let j = choose|j: int| 0 <= j < s2.len() && #[trigger] s2[j].token == t;
        let j1 = if j < i { j } else { j + 1 };
        lemma_view_at(s2, j);
        lemma_view_at(s, j1);
    }
    assert(messages_view(s2) =~= messages_view(s).remove(t0));
}

/// Whether the key is in the list.
pub fn contains_key(keys: &Vec<PublicKeyBytes>, k: &Vec<u8>) -> (r: bool)
    ensures
        r == key_set(keys@).contains(k@),
{
    let mut i: usize = 0;
    while i < keys.len()
        invariant
            i <= keys@.len(),
            forall|j: int| 0 <= j < i ==> keys@[j]@ != k@,
        decreases keys@.len() - i,
    {
        if bytes_eq(&keys[i], k) {
            assert(keys@[i as int]@ == k@);
            return true;
        }
        i = i + 1;
    }
    false
}

/// The keys of `targets` that are not in `exclude`, in their order.
pub fn keys_except(targets: &Vec<PublicKeyBytes>, exclude: &Vec<PublicKeyBytes>) -> (r: Vec<
    PublicKeyBytes,
>)
    ensures
        forall|i: int| 0 <= i < r@.len() ==> key_set(targets@).contains(#[trigger] r@[i]@) && !key_set(
            exclude@,
        ).contains(r@[i]@),
        forall|j: int| 0 <= j < targets@.len() && !key_set(exclude@).contains(#[trigger] targets@[j]@) ==> key_set(
            r@,
        ).contains(targets@[j]@),
{
    let mut out: Vec<PublicKeyBytes> = Vec::new();
    let mut i: usize = 0;
    while i < targets.len()
        invariant
            i <= targets@.len(),
            forall|a: int| 0 <= a < out@.len() ==> key_set(targets@).contains(#[trigger] out@[a]@) && !key_set(
                exclude@,
            ).contains(out@[a]@),
            forall|j: int| 0 <= j < i && !key_set(exclude@).contains(#[trigger] targets@[j]@) ==> key_set(
                out@,
            ).contains(targets@[j]@),
        decreases targets@.len() - i,
    {
        if !contains_key(exclude, &targets[i]) {
            let ghost before = out@;
            out.push(targets[i].clone());
            proof {
                assert(targets@[i as int]@ == out@[before.len() as int]@);
                assert(key_set(targets@).contains(out@[before.len() as int]@));
                assert forall|j: int| 0 <= j <= i && !key_set(exclude@).contains(#[trigger] targets@[j]@)
                    implies key_set(out@).contains(targets@[j]@) by {
                    if j < i {
                        let a = choose|a: int| 0 <= a < before.len() && #[trigger] before[a]@ == targets@[j]@;
                        assert(out@[a] == before[a]);
                    } else {
                        assert(out@[before.len() as int]@ == targets@[j]@);
                    }
                }
            }
        }
        i = i + 1;
    }
    out
}

/// Why a broadcast was refused.
#[derive(Debug)]
pub enum BroadcastError {
    /// The token is already in use on this node.
    DuplicateToken,
}

/// What the node does on a payload relay: relay it on to `relay_to`, and
/// acknowledge it to the sender in any case.
pub struct RelayAction {
    /// Whether the token was new to the node.
    pub first_time: bool,
    pub relay_to: Vec<PublicKeyBytes>,
}

/// The broadcast records of one node.
pub struct BroadcastState {
    messages: Vec<BroadcastMessageInfo>,
    /// Tokens whose broadcast has ended, still known so that a late copy is
    /// not relayed again.
    retired: Vec<BroadcastToken>,
}

/// What the retry task of a broadcast does next.
pub enum RetryStep {
    /// The broadcast is over: every target holds the payload, or the node
    /// holds no record of it.
    Stop,
    /// Send the payload again to these targets.
    Resend(Vec<PublicKeyBytes>),
}

impl BroadcastState {
    pub closed spec fn view(&self) -> Map<BroadcastToken, MessageView> {
        messages_view(self.messages@)
    }

    pub closed spec fn wf(&self) -> bool {
        tokens_unique(self.messages@)
    }

    /// The tokens retired from active broadcast but still remembered.
    pub closed spec fn retired_view(&self) -> Set<BroadcastToken> {
        Set::new(|t: BroadcastToken| exists|i: int| 0 <= i < self.retired@.len() && self.retired@[i] == t)
    }

    /// Whether the node has met the token: it holds its record or has
    /// retired it.
    pub open spec fn seen(&self, t: BroadcastToken) -> bool {
        self@.contains_key(t) || self.retired_view().contains(t)
    }

    /// No records.
    pub fn new() -> (r: Self)
        ensures
            r.wf(),
            r@ == Map::<BroadcastToken, MessageView>::empty(),
            r.retired_view() == Set::<BroadcastToken>::empty(),
    {
        let r = BroadcastState { messages: Vec::new(), retired: Vec::new() };
        assert(r@ =~= Map::<BroadcastToken, MessageView>::empty());
        assert(r.retired_view() =~= Set::<BroadcastToken>::empty());
        r
    }

    fn position(&self, token: BroadcastToken) -> (r: Option<usize>)
        requires
            self.wf(),
        ensures
            r matches Some(i) ==> i < self.messages@.len() && self.messages@[i as int].token == token,
            r is None ==> !self@.contains_key(token),
    {
        let mut i: usize = 0;
        while i < self.messages.len()
            invariant
                i <= self.messages@.len(),
                forall|j: int| 0 <= j < i ==> self.messages@[j].token != token,
            decreases self.messages@.len() - i,
        {
            if self.messages[i].token == token {
                return Some(i);
            }
            i = i + 1;
        }
        None
    }

    /// Whether the token is among the retired ones.
    fn is_retired(&self, token: BroadcastToken) -> (r: bool)
        ensures
            r == self.retired_view().contains(token),
    {
        let mut i: usize = 0;
        while i < self.retired.len()
            invariant
                i <= self.retired@.len(),
                forall|j: int| 0 <= j < i ==> self.retired@[j] != token,
            decreases self.retired@.len() - i,
        {
            if self.retired[i] == token {
                return true;
            }
            i = i + 1;
        }
        false
    }

    /// Whether the node has met the token, active or retired.
    pub fn has_seen(&self, token: BroadcastToken) -> (r: bool)
        requires
            self.wf(),
        ensures
            r == self.seen(token),
    {
        self.knows_token(token) || self.is_retired(token)
    }

    /// Whether the node holds a record for the token.
    pub fn knows_token(&self, token: BroadcastToken) -> (r: bool)
        requires
            self.wf(),
        ensures
            r == self@.contains_key(token),
    {
        match self.position(token) {
            Some(i) => {
                proof {
                    lemma_view_at(self.messages@, i as int);
                }
                true
            },
            None => false,
        }
    }

    fn add_record(&mut self, token: BroadcastToken, message: Vec<u8>, relayed_nodes: Vec<PublicKeyBytes>)
        requires
            old(self).wf(),
            !old(self)@.contains_key(token),
        ensures
            final(self).wf(),
            final(self)@ == old(self)@.insert(token, (message@, key_set(relayed_nodes@))),
            final(self).retired == old(self).retired,
    {
        let info = BroadcastMessageInfo { token, message, relayed_nodes };
        proof {
            lemma_push(self.messages@, info);
        }
        self.messages.push(info);
    }

    /// Starts a broadcast of `payload` under a fresh `token`: the record
    /// starts with no confirmed member, and the payload goes to every target.
    pub fn broadcast(&mut self, token: BroadcastToken, payload: Vec<u8>, targets: &Vec<PublicKeyBytes>) -> (r: Result<
        Vec<PublicKeyBytes>,
        BroadcastError,
    >)
        requires
            old(self).wf(),
        ensures
            final(self).wf(),
            final(self).retired_view() == old(self).retired_view(),
            r is Err <==> old(self).seen(token),
            r is Err ==> final(self)@ == old(self)@,
            r matches Ok(to) ==> key_set(to@) == key_set(targets@),
            r is Ok ==> final(self)@ == old(self)@.insert(token, (payload@, Set::<Seq<u8>>::empty())),
    {
        if self.has_seen(token) {
            return Err(BroadcastError::DuplicateToken);
        }
        let empty: Vec<PublicKeyBytes> = Vec::new();
        assert(key_set(empty@) =~= Set::<Seq<u8>>::empty());
        self.add_record(token, payload, empty);
        let to = keys_except(targets, &Vec::new());
        proof {
            assert forall|k: Seq<u8>| key_set(to@).contains(k) <==> #[trigger] key_set(targets@).contains(k) by {
                if key_set(targets@).contains(k) {
                    let j = choose|j: int| 0 <= j < targets@.len() && #[trigger] targets@[j]@ == k;
                    assert(!key_set(Seq::<Vec<u8>>::empty()).contains(targets@[j]@));
                }
                if key_set(to@).contains(k) {
                    let j = choose|j: int| 0 <= j < to@.len() && #[trigger] to@[j]@ == k;
                }
            }
            assert(key_set(to@) =~= key_set(targets@));
        }
        Ok(to)
    }

    /// Takes a payload relay from `sender`. A token that is new is taken
    /// with its payload, the sender counts as holding it, and the payload
    /// goes on to every target but the sender. A token already known is
    /// only acknowledged: nothing is relayed and nothing changes.
    pub fn on_receive_relay(
        &mut self,
        token: BroadcastToken,
        payload: Vec<u8>,
        sender: &PublicKeyBytes,
        targets: &Vec<PublicKeyBytes>,
    ) -> (r: RelayAction)
        requires
            old(self).wf(),
        ensures
            final(self).wf(),
            final(self).retired_view() == old(self).retired_view(),
            r.first_time == !old(self).seen(token),
            !r.first_time ==> r.relay_to@.len() == 0 && final(self)@ == old(self)@,
            r.first_time ==> final(self)@ == old(self)@.insert(token, (payload@, set![sender@])),
            r.first_time ==> key_set(r.relay_to@) == key_set(targets@).remove(sender@),
    {
        if self.has_seen(token) {
            return RelayAction { first_time: false, relay_to: Vec::new() };
        }
        let mut from: Vec<PublicKeyBytes> = Vec::new();
        from.push(sender.clone());
        assert(key_set(from@) =~= set![sender@]) by {
            assert(from@[0]@ == sender@);
        }
        let to = keys_except(targets, &from);
        self.add_record(token, payload, from);
        proof {
            assert forall|k: Seq<u8>| key_set(to@).contains(k) <==> #[trigger] key_set(targets@).remove(sender@).contains(k) by {
                if key_set(targets@).remove(sender@).contains(k) {
                    let j = choose|j: int| 0 <= j < targets@.len() && #[trigger] targets@[j]@ == k;
                    assert(!key_set(from@).contains(targets@[j]@));
                }
                if key_set(to@).contains(k) {
                    let j = choose|j: int| 0 <= j < to@.len() && #[trigger] to@[j]@ == k;
                }
            }
            assert(key_set(to@) =~= key_set(targets@).remove(sender@));
        }
        RelayAction { first_time: true, relay_to: to }
    }

    /// Takes an acknowledgement of `token` from `from`: where the node holds
    /// a record of the token, `from` is confirmed to hold the payload.
    pub fn on_receive_ack(&mut self, token: BroadcastToken, from: &PublicKeyBytes)
        requires
            old(self).wf(),
        ensures
            final(self).wf(),
            final(self)@ == ack_spec(old(self)@, token, from@),
            final(self).retired_view() == old(self).retired_view(),
    {
        match self.position(token) {
            None => {},
            Some(i) => {
                let ghost s = self.messages@;
                proof {
                    lemma_view_at(s, i as int);
                }
                let old_info = &self.messages[i];
                let mut relayed: Vec<PublicKeyBytes> = Vec::new();
                let mut j: usize = 0;
                while j < old_info.relayed_nodes.len()
                    invariant
                        j <= old_info.relayed_nodes@.len(),
                        relayed@.len() == j,
                        forall|a: int| 0 <= a < j ==> #[trigger] relayed@[a]@ == old_info.relayed_nodes@[a]@,
                    decreases old_info.relayed_nodes@.len() - j,
                {
                    relayed.push(old_info.relayed_nodes[j].clone());
                    j = j + 1;
                }
                let ghost before = relayed@;
                assert(key_set(before) =~= key_set(old_info.relayed_nodes@)) by {
                    assert forall|k: Seq<u8>| #[trigger] key_set(old_info.relayed_nodes@).contains(k) implies key_set(before).contains(k) by {
                        let a = choose|a: int| 0 <= a < old_info.relayed_nodes@.len() && #[trigger] old_info.relayed_nodes@[a]@ == k;
                        assert(before[a]@ == k);
                    }
                }
                if !contains_key(&relayed, from) {
                    relayed.push(from.clone());
                    assert(key_set(relayed@) =~= key_set(before).insert(from@)) by {
                        assert(relayed@[before.len() as int]@ == from@);
                        assert forall|k: Seq<u8>| #[trigger] key_set(before).contains(k) implies key_set(relayed@).contains(k) by {
                            let a = choose|a: int| 0 <= a < before.len() && #[trigger] before[a]@ == k;
                            assert(relayed@[a] == before[a]);
                        }
                        assert forall|k: Seq<u8>| #[trigger] key_set(relayed@).contains(k) implies key_set(before).insert(from@).contains(k) by {
                            let a = choose|a: int| 0 <= a < relayed@.len() && #[trigger] relayed@[a]@ == k;
                            if a < before.len() {
                                assert(relayed@[a] == before[a]);
                            }
                        }
                    }
                } else {
                    assert(key_set(relayed@) =~= key_set(before).insert(from@));
                }
                let info = BroadcastMessageInfo {
                    token,
                    message: self.messages[i].message.clone(),
                    relayed_nodes: relayed,
                };
                proof {
                    lemma_update(s, i as int, info);
                }
                self.messages.set(i, info);
            },
        }
    }

    /// The targets still to be sent the payload of `token`: those not
    /// confirmed to hold it. None for a token the node holds no record of.
    pub fn retry_targets(&self, token: BroadcastToken, targets: &Vec<PublicKeyBytes>) -> (r: Vec<PublicKeyBytes>)
        requires
            self.wf(),
        ensures
            !self@.contains_key(token) ==> r@.len() == 0,
            self@.contains_key(token) ==> key_set(r@) == key_set(targets@).difference(self@[token].1),
    {
        match self.position(token) {
            None => Vec::new(),
            Some(i) => {
                proof {
                    lemma_view_at(self.messages@, i as int);
                }
                let to = keys_except(targets, &self.messages[i].relayed_nodes);
                proof {
                    let rel = self.messages@[i as int].relayed_nodes@;
                    assert forall|k: Seq<u8>| key_set(to@).contains(k) <==> #[trigger] key_set(targets@).difference(key_set(rel)).contains(k) by {
                        if key_set(targets@).difference(key_set(rel)).contains(k) {
                            let j = choose|j: int| 0 <= j < targets@.len() && #[trigger] targets@[j]@ == k;
                            assert(!key_set(rel).contains(targets@[j]@));
                        }
                        if key_set(to@).contains(k) {
                            let j = choose|j: int| 0 <= j < to@.len() && #[trigger] to@[j]@ == k;
                        }
                    }
                    assert(key_set(to@) =~= key_set(targets@).difference(key_set(rel)));
                }
                to
            },
        }
    }

    /// Whether every target is confirmed to hold the payload of `token`.
    pub fn is_complete(&self, token: BroadcastToken, targets: &Vec<PublicKeyBytes>) -> (r: bool)
        requires
            self.wf(),
        ensures
            r == (self@.contains_key(token) && key_set(targets@).subset_of(self@[token].1)),
    {
        if !self.knows_token(token) {
            return false;
        }
        let rest = self.retry_targets(token, targets);
        proof {
            if rest@.len() == 0 {
                assert forall|k: Seq<u8>| key_set(targets@).contains(k) implies #[trigger] self@[token].1.contains(k) by {
                    if !self@[token].1.contains(k) {
                        assert(key_set(targets@).difference(self@[token].1).contains(k));
                        let a = choose|a: int| 0 <= a < rest@.len() && #[trigger] rest@[a]@ == k;
                    }
                }
            } else {
                assert(key_set(rest@).contains(rest@[0]@));
            }
        }
        rest.len() == 0
    }

    /// Ends the broadcast of `token`: its record is dropped, and the token
    /// is kept among the retired ones so that a late copy is only
    /// acknowledged.
    pub fn retire(&mut self, token: BroadcastToken)
        requires
            old(self).wf(),
        ensures
            final(self).wf(),
            final(self)@ == old(self)@.remove(token),
            final(self).retired_view() == old(self).retired_view().insert(token),
    {
        let ghost old_retired = self.retired_view();
        match self.position(token) {
            None => {
                assert(self@ =~= self@.remove(token));
            },
            Some(i) => {
                proof {
                    lemma_remove(self.messages@, i as int);
                }
                self.messages.remove(i);
            },
        }
        let ghost before = self.retired@;
        self.retired.push(token);
        assert(self.retired_view() =~= old_retired.insert(token)) by {
            assert(self.retired@[before.len() as int] == token);
            assert forall|t: BroadcastToken| old_retired.contains(t) implies #[trigger] self.retired_view().contains(t) by {
                let k = choose|k: int| 0 <= k < before.len() && before[k] == t;
                assert(self.retired@[k] == t);
            }
            assert forall|t: BroadcastToken| #[trigger] self.retired_view().contains(t) implies old_retired.insert(token).contains(t) by {
                let k = choose|k: int| 0 <= k < self.retired@.len() && self.retired@[k] == t;
                if k < before.len() {
                    assert(before[k] == t);
                }
            }
        }
    }

    /// Forgets a retired token, once its retention window has passed.
    pub fn expire(&mut self, token: BroadcastToken)
        requires
            old(self).wf(),
        ensures
            final(self).wf(),
            final(self)@ == old(self)@,
            final(self).retired_view() == old(self).retired_view().remove(token),
    {
        let ghost old_retired = self.retired_view();
        let mut kept: Vec<BroadcastToken> = Vec::new();
        let mut i: usize = 0;
        while i < self.retired.len()
            invariant
                i <= self.retired@.len(),
                old_retired == self.retired_view(),
                forall|a: int| 0 <= a < kept@.len() ==> #[trigger] kept@[a] != token && old_retired.contains(kept@[a]),
                forall|j: int| 0 <= j < i && #[trigger] self.retired@[j] != token ==> exists|a: int| 0 <= a < kept@.len() && kept@[a] == self.retired@[j],
            decreases self.retired@.len() - i,
        {
            let t = self.retired[i];
            if t != token {
                let ghost before = kept@;
                kept.push(t);
                proof {
                    assert(old_retired.contains(t)) by {
                        assert(self.retired@[i as int] == t);
                    }
                    assert forall|j: int| 0 <= j <= i && #[trigger] self.retired@[j] != token implies exists|a: int| 0 <= a < kept@.len() && kept@[a] == self.retired@[j] by {
                        if j < i {
                            let a = choose|a: int| 0 <= a < before.len() && before[a] == self.retired@[j];
                            assert(kept@[a] == before[a]);
                        } else {
                            assert(kept@[before.len() as int] == t);
                        }
                    }
                }
            }
            i = i + 1;
        }
        let ghost old_list = self.retired@;
        self.retired = kept;
        assert(self.retired_view() =~= old_retired.remove(token)) by {
            assert forall|t: BroadcastToken| #[trigger] old_retired.remove(token).contains(t) implies self.retired_view().contains(t) by {
                let k = choose|k: int| 0 <= k < old_list.len() && old_list[k] == t;
                assert(old_list[k] != token);
            }
            assert forall|t: BroadcastToken| #[trigger] self.retired_view().contains(t) implies old_retired.remove(token).contains(t) by {
                let k = choose|k: int| 0 <= k < self.retired@.len() && self.retired@[k] == t;
            }
        }
    }

    /// What the retry task of `token` does next: stop once every target
    /// holds the payload (or the record is gone), else resend to the
    /// targets not confirmed yet.
    pub fn retry_step(&self, token: BroadcastToken, targets: &Vec<PublicKeyBytes>) -> (r: RetryStep)
        requires
            self.wf(),
        ensures
            r is Stop <==> !self@.contains_key(token) || key_set(targets@).subset_of(self@[token].1),
            r matches RetryStep::Resend(to) ==> key_set(to@) == key_set(targets@).difference(self@[token].1),
    {
        if !self.knows_token(token) || self.is_complete(token, targets) {
            RetryStep::Stop
        } else {
            RetryStep::Resend(self.retry_targets(token, targets))
        }
    }
}

/// Acknowledgements commute, and a repeated one changes nothing.
pub proof fn acks_commute_and_repeat(m: Map<BroadcastToken, MessageView>, t: BroadcastToken, a: Seq<u8>, b: Seq<u8>)
    ensures
        ack_spec(ack_spec(m, t, a), t, b) == ack_spec(ack_spec(m, t, b), t, a),
        ack_spec(ack_spec(m, t, a), t, a) == ack_spec(m, t, a),
{
    if m.contains_key(t) {
        assert(m[t].1.insert(a).insert(b) =~= m[t].1.insert(b).insert(a));
        assert(m[t].1.insert(a).insert(a) =~= m[t].1.insert(a));
        assert(ack_spec(ack_spec(m, t, a), t, b) =~= ack_spec(ack_spec(m, t, b), t, a));
        assert(ack_spec(ack_spec(m, t, a), t, a) =~= ack_spec(m, t, a));
    }
}

/// An acknowledgement never takes a member out of a confirmed set.
pub proof fn acks_only_grow(m: Map<BroadcastToken, MessageView>, t: BroadcastToken, from: Seq<u8>, u: BroadcastToken)
    requires
        m.contains_key(u),
    ensures
        ack_spec(m, t, from).contains_key(u),
        m[u].1.subset_of(ack_spec(m, t, from)[u].1),
        ack_spec(m, t, from)[u].0 == m[u].0,
{
}

/// The records after acknowledgements of `token` from each of `keys`, in turn.
pub open spec fn ack_all(m: Map<BroadcastToken, MessageView>, token: BroadcastToken, keys: Seq<Seq<u8>>) -> Map<
    BroadcastToken,
    MessageView,
>
    decreases keys.len(),
{
    if keys.len() == 0 {
        m
    } else {
        ack_spec(ack_all(m, token, keys.drop_last()), token, keys.last())
    }
}

/// Once every target has acknowledged a broadcast that the node holds a
/// record of, every target is confirmed, whatever was confirmed before.
pub proof fn acks_from_every_target_complete(
    m: Map<BroadcastToken, MessageView>,
    token: BroadcastToken,
    keys: Seq<Seq<u8>>,
)
    requires
        m.contains_key(token),
    ensures
        ack_all(m, token, keys).contains_key(token),
        m[token].1.subset_of(ack_all(m, token, keys)[token].1),
        forall|i: int| 0 <= i < keys.len() ==> ack_all(m, token, keys)[token].1.contains(#[trigger] keys[i]),
    decreases keys.len(),
{
    if keys.len() > 0 {
        acks_from_every_target_complete(m, token, keys.drop_last());
        let prev = ack_all(m, token, keys.drop_last());
        assert forall|i: int| 0 <= i < keys.len() implies ack_all(m, token, keys)[token].1.contains(#[trigger] keys[i]) by {
            if i < keys.len() - 1 {
                assert(keys.drop_last()[i] == keys[i]);
                assert(prev[token].1.contains(keys[i]));
            }
        }
    }
}

} // verus!
