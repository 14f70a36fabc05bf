//! Auction-state and bid-history logic for a cross-chain swap auction
//! protocol, with the byte, hex and base58 conversions around it.
//!
//! Network access, argument handling and console output live outside this
//! library; everything here computes on plain values.

pub mod address;
pub mod bids;
pub mod convert;
pub mod layout;

pub use address::{Lookup, ORDER_API_URL, classify_input, order_url};
pub use bids::{
    BID_INSTRUCTION_INDEX, BID_LOG_MARKER, BidEntry, BidError, Instruction, MAX_SCANNED_TRANSACTIONS,
    ParsedMessage, TxMeta, TxOutcome, TxRecord, bid_amount_from_data, bid_amount_from_text,
    bid_from_transaction, logs_mark_bid, reconstruct_bids, sort_bids_by_slot, str_contains,
};
pub use convert::{
    ConvertError, DataFormat, decode_base58, decode_input, encode_base58, format_from_lowercase,
    from_bytes32, parse_byte_list, parse_decimal_u8, parse_format, str_eq, strip_hex_prefix,
    to_bytes32,
};
pub use layout::{
    AUCTION_STATE_LEN, Address, AuctionState, DISCRIMINATOR_LEN, LayoutError, parse_auction_state,
};
