use crate::convert::{base58_decode, base58_of};
use vstd::bytes::{spec_u64_from_le_bytes, u64_from_le_bytes};
use vstd::prelude::*;
use vstd::seq_lib::{to_multiset_build, to_multiset_insert};
use vstd::slice::slice_subrange;

verus! {

/// The log line that marks a transaction as a bid.
pub const BID_LOG_MARKER: &'static str = "Program log: Instruction: Bid";

/// Position, in a bid transaction's instruction list, of the bid instruction.
pub const BID_INSTRUCTION_INDEX: usize = 2;

/// At most this many of an account's most recent transactions are scanned.
pub const MAX_SCANNED_TRANSACTIONS: usize = 100;

/// One bid found in an auction account's transaction history.
#[derive(Clone, Debug)]
pub struct BidEntry {
    pub signature: String,
    pub bidder: String,
    /// Zero when the instruction data does not yield an amount.
    pub bid_amount: u64,
    pub slot: u64,
    pub timestamp: Option<i64>,
    pub failed: bool,
}

/// `pat` stands in `s` starting at `i`.
pub open spec fn occurs_at(s: Seq<char>, pat: Seq<char>, i: int) -> bool {
    0 <= i && i + pat.len() <= s.len() && s.subrange(i, i + pat.len()) == pat
}

pub open spec fn contains_seq(s: Seq<char>, pat: Seq<char>) -> bool {
    exists|i: int| occurs_at(s, pat, i)
}

/// Whether `pat` occurs in `s` as a run of consecutive characters.
pub fn str_contains(s: &str, pat: &str) -> (r: bool)
    ensures
        r == contains_seq(s@, pat@),
{
    let n = s.unicode_len();
    let m = pat.unicode_len();
    if m > n {
        assert forall|i: int| !occurs_at(s@, pat@, i) by {}
        return false;
    }
    let mut i: usize = 0;
    while i <= n - m
        invariant
            n == s@.len(),
            m == pat@.len(),
            m <= n,
            i <= n - m + 1,
            forall|k: int| 0 <= k < i ==> !occurs_at(s@, pat@, k),
        decreases n - m + 1 - i,
    {
        let mut j: usize = 0;
        loop
            invariant
                n == s@.len(),
                m == pat@.len(),
                i + m <= n,
                j <= m,
                forall|t: int| 0 <= t < j ==> s@[i + t] == pat@[t],
            ensures
                j <= m,
                forall|t: int| 0 <= t < j ==> s@[i + t] == pat@[t],
                j < m ==> s@[i + j] != pat@[j as int],
            decreases m - j,
        {
            if j == m {
                break;
            }
            if s.get_char(i + j) != pat.get_char(j) {
                break;
            }
            j = j + 1;
        }
        if j == m {
            assert(s@.subrange(i as int, i + m) =~= pat@);
            assert(occurs_at(s@, pat@, i as int));
            return true;
        }
        assert(s@.subrange(i as int, i + m)[j as int] != pat@[j as int]);
        i = i + 1;
    }
    assert forall|k: int| !occurs_at(s@, pat@, k) by {
        if 0 <= k && k + m <= n {
            assert(k < i);
        }
    }
    false
}

/// Some log line holds the bid marker.
pub open spec fn has_bid_marker(logs: Seq<String>) -> bool {
    exists|i: int| 0 <= i < logs.len() && contains_seq(#[trigger] logs[i]@, BID_LOG_MARKER@)
}

/// Whether some log line holds the bid marker.
pub fn logs_mark_bid(logs: &Vec<String>) -> (r: bool)
    ensures
        r == has_bid_marker(logs@),
{
    let mut i: usize = 0;
    while i < logs.len()
        invariant
            i <= logs@.len(),
            forall|k: int| 0 <= k < i ==> !contains_seq(#[trigger] logs@[k]@, BID_LOG_MARKER@),
        decreases logs@.len() - i,
    {
        if str_contains(logs[i].as_str(), BID_LOG_MARKER) {
            return true;
        }
        i = i + 1;
    }
    false
}

/// The amount a bid instruction carries: its last 8 bytes read little-endian,
/// or zero when it has fewer.
pub open spec fn amount_of(data: Seq<u8>) -> u64 {
    if data.len() >= 8 {
        spec_u64_from_le_bytes(data.subrange(data.len() - 8, data.len() as int))
    } else {
        0
    }
}

/// Reads the bid amount from a bid instruction's decoded data.
pub fn bid_amount_from_data(data: &[u8]) -> (r: u64)
    ensures
        r == amount_of(data@),
{
    let n = data.len();
    if n >= 8 {
        u64_from_le_bytes(slice_subrange(data, n - 8, n))
    } else {
        0
    }
}

impl BidEntry {
    /// Change in amount from the bid before, known only when both amounts are.
    pub fn amount_delta(&self, prev: &BidEntry) -> (r: Option<i128>)
        ensures
            r == (if self.bid_amount > 0 && prev.bid_amount > 0 {
                Some((self.bid_amount - prev.bid_amount) as i128)
            } else {
                None
            }),
    {
        if self.bid_amount > 0 && prev.bid_amount > 0 {
            Some(self.bid_amount as i128 - prev.bid_amount as i128)
        } else {
            None
        }
    }
}

/// Entries appear in ascending slot order.
pub open spec fn sorted_by_slot(s: Seq<BidEntry>) -> bool {
    forall|i: int, j: int| 0 <= i < j < s.len() ==> s[i].slot <= s[j].slot
}

/// Where a stable insertion puts an entry of `slot`: past every leading
/// entry whose slot is not above it.
pub open spec fn insert_pos(s: Seq<BidEntry>, slot: u64) -> int
    decreases s.len(),
{
    if s.len() == 0 {
        0
    } else if s[0].slot > slot {
        0
    } else {
        1 + insert_pos(s.drop_first(), slot)
    }
}

pub open spec fn insert_by_slot(s: Seq<BidEntry>, e: BidEntry) -> Seq<BidEntry> {
    s.insert(insert_pos(s, e.slot), e)
}

/// The entries ordered by slot, those of equal slot kept in their order.
pub open spec fn sort_by_slot(s: Seq<BidEntry>) -> Seq<BidEntry>
    decreases s.len(),
{
    if s.len() == 0 {
        s
    } else {
        insert_by_slot(sort_by_slot(s.drop_last()), s.last())
    }
}

proof fn lemma_insert_pos(s: Seq<BidEntry>, slot: u64)
    ensures
        0 <= insert_pos(s, slot) <= s.len(),
        forall|k: int| 0 <= k < insert_pos(s, slot) ==> s[k].slot <= slot,
        insert_pos(s, slot) < s.len() ==> s[insert_pos(s, slot)].slot > slot,
    decreases s.len(),
{
    if s.len() > 0 && s[0].slot <= slot {
        lemma_insert_pos(s.drop_first(), slot);
        assert forall|k: int| 0 <= k < insert_pos(s, slot) implies s[k].slot <= slot by {
            if k > 0 {
                assert(s[k] == s.drop_first()[k - 1]);
            }
        }
    }
}

proof fn lemma_insert_keeps_sorted(s: Seq<BidEntry>, e: BidEntry)
    requires
        sorted_by_slot(s),
    ensures
        sorted_by_slot(insert_by_slot(s, e)),
        insert_by_slot(s, e).len() == s.len() + 1,
{
    lemma_insert_pos(s, e.slot);
    let p = insert_pos(s, e.slot);
    let t = insert_by_slot(s, e);
    assert forall|i: int, j: int| 0 <= i < j < t.len() implies t[i].slot <= t[j].slot by {
        if j < p {
        } else if j == p {
        } else if i < p {
            assert(s[p].slot > e.slot);
        } else if i == p {
            assert(s[p].slot > e.slot);
            assert(s[p].slot <= s[j - 1].slot);
        } else {
        }
    }
}

/// Sorting by slot yields entries in ascending slot order.
pub proof fn lemma_sort_by_slot_sorted(s: Seq<BidEntry>)
    ensures
        sorted_by_slot(sort_by_slot(s)),
        sort_by_slot(s).len() == s.len(),
    decreases s.len(),
{
    if s.len() > 0 {
        lemma_sort_by_slot_sorted(s.drop_last());
        lemma_insert_keeps_sorted(sort_by_slot(s.drop_last()), s.last());
    }
}

/// Sorting by slot neither loses nor adds an entry.
pub proof fn lemma_sort_by_slot_permutes(s: Seq<BidEntry>)
    ensures
        sort_by_slot(s).to_multiset() == s.to_multiset(),
    decreases s.len(),
{
    if s.len() > 0 {
        let rest = sort_by_slot(s.drop_last());
        lemma_sort_by_slot_permutes(s.drop_last());
        lemma_insert_pos(rest, s.last().slot);
        to_multiset_insert(rest, insert_pos(rest, s.last().slot), s.last());
        to_multiset_build(s.drop_last(), s.last());
        assert(s.drop_last().push(s.last()) =~= s);
    }
}

fn slot_insert_pos(v: &Vec<BidEntry>, slot: u64) -> (r: usize)
    ensures
        r == insert_pos(v@, slot),
{
    let mut j: usize = 0;
    assert(v@.skip(0) =~= v@);
    while j < v.len() && v[j].slot <= slot
        invariant
            j <= v@.len(),
            insert_pos(v@, slot) == j + insert_pos(v@.skip(j as int), slot),
        decreases v@.len() - j,
    {
        assert(v@.skip(j as int).drop_first() =~= v@.skip(j + 1));
        j = j + 1;
    }
    if j < v.len() {
    } else {
        assert(v@.skip(j as int).len() == 0);
    }
    j
}

/// Orders the bids by slot, oldest first; bids of one slot keep their order.
pub fn sort_bids_by_slot(bids: &mut Vec<BidEntry>)
    ensures
        final(bids)@ == sort_by_slot(old(bids)@),
        sorted_by_slot(final(bids)@),
        final(bids)@.to_multiset() == old(bids)@.to_multiset(),
{
    let ghost orig = bids@;
    let mut out: Vec<BidEntry> = Vec::new();
    let n = bids.len();
    let mut i: usize = 0;
    assert(orig.take(0) =~= Seq::<BidEntry>::empty());
    while bids.len() > 0
        invariant
            i <= orig.len(),
            n == orig.len(),
            bids@ == orig.skip(i as int),
            out@ == sort_by_slot(orig.take(i as int)),
        decreases bids@.len(),
    {
        let e = bids.remove(0);
        assert(orig.take(i + 1).drop_last() =~= orig.take(i as int));
        assert(orig.skip(i as int).remove(0) =~= orig.skip(i + 1));
        let p = slot_insert_pos(&out, e.slot);
        proof {
            lemma_insert_pos(out@, e.slot);
        }
        out.insert(p, e);
        i = i + 1;
    }
    assert(orig.take(i as int) =~= orig);
    proof {
        lemma_sort_by_slot_sorted(orig);
        lemma_sort_by_slot_permutes(orig);
    }
    *bids = out;
}

/// Execution details of a fetched transaction.
#[derive(Clone, Debug)]
pub struct TxMeta {
    pub log_messages: Option<Vec<String>>,
    /// The transaction's execution reported an error.
    pub failed: bool,
}

/// One instruction of a parsed transaction message.
#[derive(Clone, Debug)]
pub enum Instruction {
    /// An instruction of a program without a parser: its data in base58.
    PartiallyDecoded { data: String },
    /// An instruction in any other shape.
    Other,
}

/// A transaction message in parsed form.
#[derive(Clone, Debug)]
pub struct ParsedMessage {
    pub account_keys: Vec<String>,
    pub instructions: Vec<Instruction>,
}

/// What the history scan needs of one transaction of an auction account.
#[derive(Clone, Debug)]
pub struct TxRecord {
    pub signature: String,
    pub slot: u64,
    pub block_time: Option<i64>,
    /// Absent when the ledger gave no execution details.
    pub meta: Option<TxMeta>,
    /// Absent when the transaction did not come as a parsed message.
    pub message: Option<ParsedMessage>,
}

/// Why a bid history cannot be built.
#[derive(Clone, Copy, Debug, PartialEq, Eq)]
pub enum BidError {
    /// A transaction came without its execution details.
    MissingMeta,
}

/// What one transaction contributes to a bid history.
#[derive(Clone, Debug)]
pub enum TxOutcome {
    Bid(BidEntry),
    /// No log line marks it as a bid.
    NotBid,
    /// A bid, but not delivered as a parsed message.
    UnsupportedEncoding,
    /// A bid whose message lacks the bid instruction or a first account.
    UnexpectedShape,
}

pub open spec fn marks_bid(m: TxMeta) -> bool {
    match m.log_messages {
        Some(logs) => has_bid_marker(logs@),
        None => false,
    }
}

/// The amount carried by base58 instruction data; zero when the text is
/// not base58.
pub open spec fn amount_of_text(data: Seq<char>) -> u64 {
    if exists|b: Seq<u8>| #[trigger] base58_of(b) == data {
        amount_of(choose|b: Seq<u8>| #[trigger] base58_of(b) == data)
    } else {
        0
    }
}

/// What a transaction contributes: an error when it lacks execution
/// details; nothing unless its logs mark a bid; else the bid read from its
/// message when that has the expected shape.
pub open spec fn outcome_of(tx: TxRecord) -> Result<TxOutcome, BidError> {
    match tx.meta {
        None => Err(BidError::MissingMeta),
        Some(m) => if !marks_bid(m) {
            Ok(TxOutcome::NotBid)
        } else {
            match tx.message {
                None => Ok(TxOutcome::UnsupportedEncoding),
                Some(msg) => if msg.instructions@.len() > BID_INSTRUCTION_INDEX
                    && msg.account_keys@.len() > 0 {
                    match msg.instructions@[BID_INSTRUCTION_INDEX as int] {
                        Instruction::PartiallyDecoded { data } => Ok(
                            TxOutcome::Bid(
                                BidEntry {
                                    signature: tx.signature,
                                    bidder: msg.account_keys@[0],
                                    bid_amount: amount_of_text(data@),
                                    slot: tx.slot,
                                    timestamp: tx.block_time,
                                    failed: m.failed,
                                },
                            ),
                        ),
                        Instruction::Other => Ok(TxOutcome::UnexpectedShape),
                    }
                } else {
                    Ok(TxOutcome::UnexpectedShape)
                },
            }
        },
    }
}

/// Reads the bid amount from base58 instruction data.
pub fn bid_amount_from_text(data: &str) -> (r: u64)
    ensures
        r == amount_of_text(data@),
{
    match base58_decode(data) {
        Some(b) => {
            let r = bid_amount_from_data(b.as_slice());
            proof {
                let c = choose|c: Seq<u8>| #[trigger] base58_of(c) == data@;
                assert(base58_of(c) == data@);
            }
            r
        },
        None => 0,
    }
}

/// Decides what one transaction contributes to the bid history.
pub fn bid_from_transaction(tx: &TxRecord) -> (r: Result<TxOutcome, BidError>)
    ensures
        r == outcome_of(*tx),
{
    let m = match &tx.meta {
        None => return Err(BidError::MissingMeta),
        Some(m) => m,
    };
    let marked = match &m.log_messages {
        Some(logs) => logs_mark_bid(logs),
        None => false,
    };
    if !marked {
        return Ok(TxOutcome::NotBid);
    }
    let msg = match &tx.message {
        None => return Ok(TxOutcome::UnsupportedEncoding),
        Some(msg) => msg,
    };
    if msg.instructions.len() <= BID_INSTRUCTION_INDEX || msg.account_keys.len() == 0 {
        return Ok(TxOutcome::UnexpectedShape);
    }
    match &msg.instructions[BID_INSTRUCTION_INDEX] {
        Instruction::PartiallyDecoded { data } => {
            let bid = BidEntry {
                signature: tx.signature.clone(),
                bidder: msg.account_keys[0].clone(),
                bid_amount: bid_amount_from_text(data.as_str()),
                slot: tx.slot,
                timestamp: tx.block_time,
                failed: m.failed,
            };
            Ok(TxOutcome::Bid(bid))
        },
        Instruction::Other => Ok(TxOutcome::UnexpectedShape),
    }
}

/// The bids of a run of transactions, in the order met; the first error
/// met, if any.
pub open spec fn collected(txs: Seq<TxRecord>) -> Result<Seq<BidEntry>, BidError>
    decreases txs.len(),
{
    if txs.len() == 0 {
        Ok(Seq::empty())
    } else {
        match collected(txs.drop_last()) {
            Err(e) => Err(e),
            Ok(bids) => match outcome_of(txs.last()) {
                Err(e) => Err(e),
                Ok(TxOutcome::Bid(b)) => Ok(bids.push(b)),
                Ok(_) => Ok(bids),
            },
        }
    }
}

/// The bid history of a run of transactions: their bids ordered by slot.
pub open spec fn bid_history(txs: Seq<TxRecord>) -> Result<Seq<BidEntry>, BidError> {
    match collected(txs) {
        Ok(bids) => Ok(sort_by_slot(bids)),
        Err(e) => Err(e),
    }
}

proof fn lemma_collected_error_stays(txs: Seq<TxRecord>, i: int, e: BidError)
    requires
        0 <= i <= txs.len(),
        collected(txs.take(i)) == Err::<Seq<BidEntry>, BidError>(e),
    ensures
        collected(txs) == Err::<Seq<BidEntry>, BidError>(e),
    decreases txs.len(),
{
    if i == txs.len() {
        assert(txs.take(i) =~= txs);
    } else {
        assert(txs.drop_last().take(i) =~= txs.take(i));
        lemma_collected_error_stays(txs.drop_last(), i, e);
    }
}

/// A transaction whose logs do not mark a bid leaves the bid history as it
/// is, whatever its message holds.
pub proof fn lemma_unmarked_transaction_excluded(txs: Seq<TxRecord>, tx: TxRecord)
    requires
        tx.meta is Some,
        !marks_bid(tx.meta->Some_0),
    ensures
        bid_history(txs.push(tx)) == bid_history(txs),
{
    assert(txs.push(tx).drop_last() =~= txs);
}

/// Builds the bid history of an auction account from its transactions,
/// most recent first or in any order: every bid among them, ordered by slot.
pub fn reconstruct_bids(txs: &Vec<TxRecord>) -> (r: Result<Vec<BidEntry>, BidError>)
    ensures
        match bid_history(txs@) {
            Ok(bids) => r is Ok && r->Ok_0@ == bids,
            Err(e) => r == Err::<Vec<BidEntry>, BidError>(e),
        },
        r is Ok ==> sorted_by_slot(r->Ok_0@),
{
    let mut bids: Vec<BidEntry> = Vec::new();
    let mut i: usize = 0;
    assert(txs@.take(0) =~= Seq::<TxRecord>::empty());
    while i < txs.len()
        invariant
            i <= txs@.len(),
            collected(txs@.take(i as int)) == Ok::<Seq<BidEntry>, BidError>(bids@),
        decreases txs@.len() - i,
    {
        assert(txs@.take(i + 1).drop_last() =~= txs@.take(i as int));
        match bid_from_transaction(&txs[i]) {
            Err(e) => {
                proof {
                    lemma_collected_error_stays(txs@, i + 1, e);
                }
                return Err(e);
            },
            Ok(TxOutcome::Bid(b)) => {
                bids.push(b);
            },
            Ok(_) => {},
        }
        i = i + 1;
    }
    assert(txs@.take(i as int) =~= txs@);
    sort_bids_by_slot(&mut bids);
    Ok(bids)
}

} // verus!
