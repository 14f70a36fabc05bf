use vstd::bytes::{spec_u64_from_le_bytes, u64_from_le_bytes};
use vstd::prelude::*;
use vstd::slice::slice_subrange;

verus! {

/// Size of the optional tag that some account encodings put before the record.
pub const DISCRIMINATOR_LEN: usize = 8;

/// Size of the fixed-layout auction record.
pub const AUCTION_STATE_LEN: usize = 137;

/// A 32-byte on-chain account identifier.
#[derive(Clone, Copy, Debug, PartialEq, Eq)]
pub struct Address {
    pub bytes: [u8; 32],
}

/// The fixed-layout record stored in an auction-state account.
#[derive(Clone, Copy, Debug, PartialEq, Eq)]
pub struct AuctionState {
    pub bump: u8,
    pub hash: [u8; 32],
    pub initializer: Address,
    pub close_epoch: u64,
    pub amount_out_min: u64,
    pub winner: Address,
    pub amount_promised: u64,
    pub valid_from: u64,
    pub seq_msg: u64,
}

/// Why account bytes do not hold an auction record.
#[derive(Clone, Copy, Debug, PartialEq, Eq)]
pub enum LayoutError {
    /// Neither the bytes nor the bytes past a discriminator have the record's size.
    WrongLength { len: usize },
}

/// The little-endian `u64` stored at `off`.
pub open spec fn u64_at(d: Seq<u8>, off: int) -> u64 {
    spec_u64_from_le_bytes(d.subrange(off, off + 8))
}

/// `st` is what the record bytes `d` say, field by field, in declaration order.
pub open spec fn is_layout_of(st: AuctionState, d: Seq<u8>) -> bool {
    &&& d.len() == AUCTION_STATE_LEN
    &&& st.bump == d[0]
    &&& st.hash@ == d.subrange(1, 33)
    &&& st.initializer.bytes@ == d.subrange(33, 65)
    &&& st.close_epoch == u64_at(d, 65)
    &&& st.amount_out_min == u64_at(d, 73)
    &&& st.winner.bytes@ == d.subrange(81, 113)
    &&& st.amount_promised == u64_at(d, 113)
    &&& st.valid_from == u64_at(d, 121)
    &&& st.seq_msg == u64_at(d, 129)
}

/// Which bytes of an account hold the record: those past the discriminator
/// when that leaves exactly one record, else the whole account when it is
/// exactly one record, else none.
pub open spec fn record_bytes(d: Seq<u8>) -> Option<Seq<u8>> {
    if d.len() >= DISCRIMINATOR_LEN && d.len() - DISCRIMINATOR_LEN == AUCTION_STATE_LEN {
        Some(d.skip(DISCRIMINATOR_LEN as int))
    } else if d.len() == AUCTION_STATE_LEN {
        Some(d)
    } else {
        None
    }
}

fn read_array32(d: &[u8], off: usize) -> (r: [u8; 32])
    requires
        off + 32 <= d@.len(),
    ensures
        r@ == d@.subrange(off as int, off + 32),
{
    let n = d.len();
    let mut r = [0u8; 32];
    let mut i: usize = 0;
    while i < 32
        invariant
            off + 32 <= d@.len(),
            n == d@.len(),
            i <= 32,
            r@.len() == 32,
            forall|k: int| 0 <= k < i ==> r@[k] == d@[off + k],
        decreases 32 - i,
    {
        r[i] = d[off + i];
        i = i + 1;
    }
    assert(r@ =~= d@.subrange(off as int, off + 32));
    r
}

fn read_u64(d: &[u8], off: usize) -> (r: u64)
    requires
        off + 8 <= d@.len(),
    ensures
        r == u64_at(d@, off as int),
{
    let n = d.len();
    assert(off + 8 <= n);
    u64_from_le_bytes(slice_subrange(d, off, off + 8))
}

impl AuctionState {
    /// Reads a record that fills `d` exactly.
    pub fn try_from_slice(d: &[u8]) -> (r: Result<AuctionState, LayoutError>)
        ensures
            d@.len() == AUCTION_STATE_LEN ==> r is Ok && is_layout_of(r->Ok_0, d@),
            d@.len() != AUCTION_STATE_LEN ==> r == Err::<AuctionState, LayoutError>(
                LayoutError::WrongLength { len: d@.len() as usize },
            ),
    {
        if d.len() != AUCTION_STATE_LEN {
            return Err(LayoutError::WrongLength { len: d.len() });
        }
        let st = AuctionState {
            bump: d[0],
            hash: read_array32(d, 1),
            initializer: Address { bytes: read_array32(d, 33) },
            close_epoch: read_u64(d, 65),
            amount_out_min: read_u64(d, 73),
            winner: Address { bytes: read_array32(d, 81) },
            amount_promised: read_u64(d, 113),
            valid_from: read_u64(d, 121),
            seq_msg: read_u64(d, 129),
        };
        Ok(st)
    }
}

/// Decodes the auction record held in an account's bytes: first past an
/// 8-byte discriminator, then, failing that, from the first byte.
pub fn parse_auction_state(d: &[u8]) -> (r: Result<AuctionState, LayoutError>)
    ensures
        match record_bytes(d@) {
            Some(rec) => r is Ok && is_layout_of(r->Ok_0, rec),
            None => r == Err::<AuctionState, LayoutError>(
                LayoutError::WrongLength { len: d@.len() as usize },
            ),
        },
{
    if d.len() >= DISCRIMINATOR_LEN {
        let tail = slice_subrange(d, DISCRIMINATOR_LEN, d.len());
        assert(tail@ =~= d@.skip(DISCRIMINATOR_LEN as int));
        match AuctionState::try_from_slice(tail) {
            Ok(st) => return Ok(st),
            Err(_) => {},
        }
    }
    AuctionState::try_from_slice(d)
}

/// An account that holds a discriminator before a full record decodes to
/// that record: the discriminator is skipped.
pub proof fn lemma_discriminator_skipped(tag: Seq<u8>, rec: Seq<u8>)
    requires
        tag.len() == DISCRIMINATOR_LEN,
        rec.len() == AUCTION_STATE_LEN,
    ensures
        record_bytes(tag + rec) == Some(rec),
{
    assert((tag + rec).skip(DISCRIMINATOR_LEN as int) =~= rec);
}

} // verus!
