//! Execution messages for a settlement chain, carried in transactions whose
//! head names the kind of message and the target chain.
use vstd::prelude::*;
use vstd::string::{StrSliceExecFns, StringExecFns};

verus! {

/// A message to deliver to a settlement chain.
pub struct Execution {
    /// The target settlement chain which this message will be delivered to.
    pub target_chain: String,
    /// A unique sequence for the target contract.
    pub contract_sequence: u128,
    /// The actual content to deliver.
    pub message: ExecutionMessage,
}

pub enum ExecutionMessage {
    /// Does nothing but make the treasury contract verify the commitment anyway.
    Dummy { msg: String },
    /// Transfers a fungible token from the treasury contract.
    TransferFungibleToken(TransferFungibleToken),
    /// Transfers an NFT from the treasury contract.
    TransferNonFungibleToken(TransferNonFungibleToken),
}

pub struct TransferFungibleToken {
    pub token_address: String,
    pub amount: u128,
    pub receiver_address: String,
}

pub struct TransferNonFungibleToken {
    pub collection_address: String,
    pub token_index: String,
    pub receiver_address: String,
}

/// A transaction: its author, its time in milliseconds, a one-line head and
/// the body (the encoded execution).
pub struct Transaction {
    pub author: Vec<u8>,
    pub timestamp: i64,
    pub head: String,
    pub body: String,
}

/// The head's prefix for each kind of message.
pub open spec fn head_prefix(m: ExecutionMessage) -> Seq<char> {
    match m {
        ExecutionMessage::Dummy { .. } => "ex-dummy: "@,
        ExecutionMessage::TransferFungibleToken(_) => "ex-transfer-ft: "@,
        ExecutionMessage::TransferNonFungibleToken(_) => "ex-transfer-nft: "@,
    }
}

/// The name of each kind of message in a head.
pub open spec fn kind_tag(m: ExecutionMessage) -> Seq<char> {
    match m {
        ExecutionMessage::Dummy { .. } => "dummy"@,
        ExecutionMessage::TransferFungibleToken(_) => "transfer-ft"@,
        ExecutionMessage::TransferNonFungibleToken(_) => "transfer-nft"@,
    }
}

/// The head of the transaction that carries an execution.
pub open spec fn execution_head(e: Execution) -> Seq<char> {
    head_prefix(e.message) + e.target_chain@
}

/// The position of the first separator `": "` at or after `start`, or the
/// length of `s` where there is none.
pub open spec fn first_sep_from(s: Seq<char>, start: int) -> int
    decreases s.len() - start,
{
    if start < 0 || start + 1 >= s.len() {
        s.len() as int
    } else if s[start] == ':' && s[start + 1] == ' ' {
        start
    } else {
        first_sep_from(s, start + 1)
    }
}

/// The head starts with `ex-`.
pub open spec fn has_ex_prefix(h: Seq<char>) -> bool {
    h.len() >= 3 && h[0] == 'e' && h[1] == 'x' && h[2] == '-'
}

/// The head's first segment (up to the first separator) without its `ex-`.
pub open spec fn head_kind(h: Seq<char>) -> Seq<char> {
    h.subrange(3, first_sep_from(h, 0))
}

/// The head's second segment, between the first and the second separator
/// (or the end), if there is a separator at all.
pub open spec fn head_chain(h: Seq<char>) -> Option<Seq<char>> {
    let p = first_sep_from(h, 0);
    if p < h.len() {
        Some(h.subrange(p + 2, first_sep_from(h, p + 2)))
    } else {
        None
    }
}

proof fn lemma_first_sep_bounds(s: Seq<char>, start: int)
    requires
        0 <= start <= s.len(),
    ensures
        start <= first_sep_from(s, start) <= s.len(),
        first_sep_from(s, start) < s.len() ==> first_sep_from(s, start) + 2 <= s.len(),
    decreases s.len() - start,
{
    if start + 1 < s.len() && !(s[start] == ':' && s[start + 1] == ' ') {
        lemma_first_sep_bounds(s, start + 1);
    }
}

/// The position of the first separator `": "` at or after `start`.
fn find_sep(h: &str, start: usize) -> (r: usize)
    requires
        start <= h@.len(),
    ensures
        r == first_sep_from(h@, start as int),
{
    let n = h.unicode_len();
    let mut i = start;
    while n > 0 && i < n - 1
        invariant
            n == h@.len(),
            start <= i <= n,
            first_sep_from(h@, start as int) == first_sep_from(h@, i as int),
        decreases n - i,
    {
        if h.get_char(i) == ':' && h.get_char(i + 1) == ' ' {
            return i;
        }
        i = i + 1;
    }
    n
}

/// The result is an error with this text.
pub open spec fn is_err_with(r: Result<Execution, String>, text: Seq<char>) -> bool {
    match r {
        Err(e) => e@ == text,
        Ok(_) => false,
    }
}

/// Whether two strings are equal.
fn str_eq(a: &str, b: &str) -> (r: bool)
    ensures
        r == (a@ == b@),
{
    let n = a.unicode_len();
    if n != b.unicode_len() {
        return false;
    }
    let mut i: usize = 0;
    while i < n
        invariant
            n == a@.len(),
            n == b@.len(),
            i <= n,
            forall|j: int| 0 <= j < i ==> a@[j] == b@[j],
        decreases n - i,
    {
        if a.get_char(i) != b.get_char(i) {
            return false;
        }
        i = i + 1;
    }
    assert(a@ =~= b@);
    true
}

/// The head of the transaction that carries the execution.
pub fn head_of(execution: &Execution) -> (r: String)
    ensures
        r@ == execution_head(*execution),
{
    let prefix: &str = match &execution.message {
        ExecutionMessage::Dummy { .. } => "ex-dummy: ",
        ExecutionMessage::TransferFungibleToken(_) => "ex-transfer-ft: ",
        ExecutionMessage::TransferNonFungibleToken(_) => "ex-transfer-nft: ",
    };
    proof {
        reveal_strlit("ex-dummy: ");
        reveal_strlit("ex-transfer-ft: ");
        reveal_strlit("ex-transfer-nft: ");
    }
    String::from_str(prefix).concat(execution.target_chain.as_str())
}

/// Creates the transaction that carries an execution, given the execution's
/// encoding as its body.
pub fn create_execution_transaction(
    execution: &Execution,
    author: Vec<u8>,
    timestamp: i64,
    body: String,
) -> (r: Result<Transaction, String>)
    ensures
        r matches Ok(t) && t.head@ == execution_head(*execution) && t.body == body && t.author == author
            && t.timestamp == timestamp,
{
    let head = head_of(execution);
    Ok(Transaction { author, timestamp, head, body })
}

/// Checks a transaction against the execution decoded from its body. The
/// head must start with `ex-`; its first segment (up to `": "`) names the
/// kind of message after the `ex-`, and its second segment is the target
/// chain. Errors: "Invalid head" where the head lacks the `ex-` or a
/// separator, "Invalid target chain" where the chain differs, "Invalid
/// message" where the kind does not name the execution's message.
pub fn convert_transaction_to_execution(
    transaction: &Transaction,
    decoded: Result<Execution, String>,
) -> (r: Result<Execution, String>)
    ensures
        decoded is Err ==> r == decoded,
        decoded matches Ok(x) ==> {
            let h = transaction.head@;
            &&& (!has_ex_prefix(h) || head_chain(h) is None) ==> is_err_with(r, "Invalid head"@)
            &&& has_ex_prefix(h) && head_chain(h) is Some && head_chain(h)->0 != x.target_chain@ ==> is_err_with(
                r,
                "Invalid target chain"@,
            )
            &&& has_ex_prefix(h) && head_chain(h) == Some(x.target_chain@) && head_kind(h) != kind_tag(x.message)
                ==> is_err_with(r, "Invalid message"@)
            &&& has_ex_prefix(h) && head_chain(h) == Some(x.target_chain@) && head_kind(h) == kind_tag(x.message)
                ==> r == decoded
        },
{
    proof {
        reveal_strlit("Invalid head");
        reveal_strlit("Invalid target chain");
        reveal_strlit("Invalid message");
        reveal_strlit("dummy");
        reveal_strlit("transfer-ft");
        reveal_strlit("transfer-nft");
    }
    let execution = match decoded {
        Err(e) => {
            return Err(e);
        },
        Ok(x) => x,
    };
    let h = transaction.head.as_str();
    let n = h.unicode_len();
    if !(n >= 3 && h.get_char(0) == 'e' && h.get_char(1) == 'x' && h.get_char(2) == '-') {
        return Err(String::from_str("Invalid head"));
    }
    let p1 = find_sep(h, 0);
    proof {
        lemma_first_sep_bounds(h@, 3);
        assert(first_sep_from(h@, 2) == first_sep_from(h@, 3));
        assert(first_sep_from(h@, 1) == first_sep_from(h@, 2));
        assert(first_sep_from(h@, 0) == first_sep_from(h@, 1));
    }
    if p1 >= n {
        return Err(String::from_str("Invalid head"));
    }
    proof {
        lemma_first_sep_bounds(h@, 0);
        lemma_first_sep_bounds(h@, p1 + 2);
    }
    let p2 = find_sep(h, p1 + 2);
    let kind = h.substring_char(3, p1);
    let chain = h.substring_char(p1 + 2, p2);
    if !str_eq(chain, execution.target_chain.as_str()) {
        return Err(String::from_str("Invalid target chain"));
    }
    let matching = match &execution.message {
        ExecutionMessage::Dummy { .. } => str_eq(kind, "dummy"),
        ExecutionMessage::TransferFungibleToken(_) => str_eq(kind, "transfer-ft"),
        ExecutionMessage::TransferNonFungibleToken(_) => str_eq(kind, "transfer-nft"),
    };
    if !matching {
        return Err(String::from_str("Invalid message"));
    }
    Ok(execution)
}

} // verus!
