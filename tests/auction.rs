use mayan_cli::{
    bid_amount_from_data, bid_amount_from_text, bid_from_transaction, classify_input,
    encode_base58, logs_mark_bid, order_url, parse_auction_state, reconstruct_bids,
    sort_bids_by_slot, str_contains, Address, BidEntry, BidError, DataFormat, Instruction,
    LayoutError, Lookup, ParsedMessage, TxMeta, TxOutcome, TxRecord, AUCTION_STATE_LEN,
    BID_LOG_MARKER,
};

fn record_bytes() -> Vec<u8> {
    let mut d = Vec::new();
    d.push(254u8);
    d.extend([0x11u8; 32]);
    d.extend([0x22u8; 32]);
    d.extend(7u64.to_le_bytes());
    d.extend(1_000_000u64.to_le_bytes());
    d.extend([0x33u8; 32]);
    d.extend(u64::MAX.to_le_bytes());
    d.extend(1_700_000_000u64.to_le_bytes());
    d.extend(42u64.to_le_bytes());
    d
}

fn check_record(st: &mayan_cli::AuctionState) {
    assert_eq!(st.bump, 254);
    assert_eq!(st.hash, [0x11; 32]);
    assert_eq!(st.initializer.bytes, [0x22; 32]);
    assert_eq!(st.close_epoch, 7);
    assert_eq!(st.amount_out_min, 1_000_000);
    assert_eq!(st.winner.bytes, [0x33; 32]);
    assert_eq!(st.amount_promised, u64::MAX);
    assert_eq!(st.valid_from, 1_700_000_000);
    assert_eq!(st.seq_msg, 42);
}

#[test]
fn record_without_discriminator_decodes() {
    let d = record_bytes();
    assert_eq!(d.len(), AUCTION_STATE_LEN);
    check_record(&parse_auction_state(&d).unwrap());
}

#[test]
fn record_after_discriminator_decodes() {
    let mut d = vec![9u8, 8, 7, 6, 5, 4, 3, 2];
    d.extend(record_bytes());
    check_record(&parse_auction_state(&d).unwrap());
}

#[test]
fn record_of_wrong_size_is_refused() {
    let mut d = record_bytes();
    d.push(0);
    assert_eq!(parse_auction_state(&d), Err(LayoutError::WrongLength { len: 138 }));
    assert_eq!(parse_auction_state(&[1, 2, 3]), Err(LayoutError::WrongLength { len: 3 }));
    assert_eq!(parse_auction_state(&[]), Err(LayoutError::WrongLength { len: 0 }));
}

#[test]
fn address_text_skips_order_lookup() {
    let system = "11111111111111111111111111111111";
    assert_eq!(classify_input(system), Lookup::Account(Address { bytes: [0; 32] }));
    let text = Address { bytes: [0x22; 32] }.to_base58();
    match classify_input(&text) {
        Lookup::Account(a) => assert_eq!(a.bytes, [0x22; 32]),
        Lookup::Order => panic!("an address was sent to the order lookup"),
    }
}

#[test]
fn order_identifier_goes_to_order_lookup() {
    assert_eq!(classify_input("abc123"), Lookup::Order);
    assert_eq!(classify_input(""), Lookup::Order);
    assert_eq!(classify_input("0x1234"), Lookup::Order);
}

#[test]
fn address_parse_round_trips() {
    let a = Address { bytes: [0x5a; 32] };
    assert_eq!(Address::parse(&a.to_base58()), Some(a));
    assert_eq!(Address::parse("abc123"), None);
}

#[test]
fn order_url_names_the_order() {
    assert_eq!(
        order_url("abc123"),
        "https://explorer-api.mayan.finance/v3/swap/order-id/abc123"
    );
}

fn entry(slot: u64, amount: u64, sig: &str) -> BidEntry {
    BidEntry {
        signature: sig.to_string(),
        bidder: "bidder".to_string(),
        bid_amount: amount,
        slot,
        timestamp: None,
        failed: false,
    }
}

#[test]
fn bids_are_sorted_by_slot() {
    let mut bids = vec![entry(5, 1, "a"), entry(2, 1, "b"), entry(9, 1, "c")];
    sort_bids_by_slot(&mut bids);
    let slots: Vec<u64> = bids.iter().map(|b| b.slot).collect();
    assert_eq!(slots, vec![2, 5, 9]);
}

#[test]
fn equal_slots_keep_their_order() {
    let mut bids = vec![entry(3, 1, "a"), entry(1, 1, "b"), entry(3, 1, "c"), entry(1, 1, "d")];
    sort_bids_by_slot(&mut bids);
    let sigs: Vec<&str> = bids.iter().map(|b| b.signature.as_str()).collect();
    assert_eq!(sigs, vec!["b", "d", "a", "c"]);
}

fn amount_text(amount: u64) -> String {
    let mut data = vec![0xaau8, 0xbb];
    data.extend(amount.to_le_bytes());
    encode_base58(&hex::encode(&data), DataFormat::Hex).unwrap()
}

fn bid_tx(sig: &str, slot: u64, amount: u64, logs: Vec<&str>) -> TxRecord {
    TxRecord {
        signature: sig.to_string(),
        slot,
        block_time: Some(1_700_000_000 + slot as i64),
        meta: Some(TxMeta {
            log_messages: Some(logs.into_iter().map(|l| l.to_string()).collect()),
            failed: false,
        }),
        message: Some(ParsedMessage {
            account_keys: vec![format!("bidder{}", slot), "other".to_string()],
            instructions: vec![
                Instruction::Other,
                Instruction::Other,
                Instruction::PartiallyDecoded { data: amount_text(amount) },
            ],
        }),
    }
}

const BID_LOGS: [&str; 2] = ["Program abc invoke [1]", "Program log: Instruction: Bid"];

#[test]
fn bid_is_read_from_third_instruction() {
    let tx = bid_tx("sig1", 10, 5000, BID_LOGS.to_vec());
    match bid_from_transaction(&tx).unwrap() {
        TxOutcome::Bid(b) => {
            assert_eq!(b.signature, "sig1");
            assert_eq!(b.bidder, "bidder10");
            assert_eq!(b.bid_amount, 5000);
            assert_eq!(b.slot, 10);
            assert_eq!(b.timestamp, Some(1_700_000_010));
            assert!(!b.failed);
        }
        _ => panic!("expected a bid"),
    }
}

#[test]
fn reconstructed_history_is_in_slot_order() {
    let txs = vec![
        bid_tx("s5", 5, 300, BID_LOGS.to_vec()),
        bid_tx("s2", 2, 100, BID_LOGS.to_vec()),
        bid_tx("s9", 9, 500, BID_LOGS.to_vec()),
    ];
    let bids = reconstruct_bids(&txs).unwrap();
    let slots: Vec<u64> = bids.iter().map(|b| b.slot).collect();
    assert_eq!(slots, vec![2, 5, 9]);
    let amounts: Vec<u64> = bids.iter().map(|b| b.bid_amount).collect();
    assert_eq!(amounts, vec![100, 300, 500]);
}

#[test]
fn transaction_without_marker_is_excluded() {
    let unmarked = bid_tx("x", 4, 999, vec!["Program log: Instruction: Cancel"]);
    assert!(matches!(bid_from_transaction(&unmarked), Ok(TxOutcome::NotBid)));
    let txs = vec![bid_tx("a", 1, 10, BID_LOGS.to_vec()), unmarked];
    let bids = reconstruct_bids(&txs).unwrap();
    assert_eq!(bids.len(), 1);
    assert_eq!(bids[0].signature, "a");
}

#[test]
fn transaction_without_logs_is_excluded() {
    let mut tx = bid_tx("x", 4, 999, vec![]);
    tx.meta = Some(TxMeta { log_messages: None, failed: true });
    assert!(matches!(bid_from_transaction(&tx), Ok(TxOutcome::NotBid)));
}

#[test]
fn missing_meta_stops_the_history() {
    let mut tx = bid_tx("x", 4, 999, BID_LOGS.to_vec());
    tx.meta = None;
    let txs = vec![bid_tx("a", 1, 10, BID_LOGS.to_vec()), tx];
    assert_eq!(reconstruct_bids(&txs).unwrap_err(), BidError::MissingMeta);
}

#[test]
fn unexpected_shapes_are_skipped() {
    let mut unparsed = bid_tx("u", 1, 1, BID_LOGS.to_vec());
    unparsed.message = None;
    assert!(matches!(bid_from_transaction(&unparsed), Ok(TxOutcome::UnsupportedEncoding)));

    let mut short = bid_tx("s", 1, 1, BID_LOGS.to_vec());
    short.message.as_mut().unwrap().instructions.truncate(2);
    assert!(matches!(bid_from_transaction(&short), Ok(TxOutcome::UnexpectedShape)));

    let mut other = bid_tx("o", 1, 1, BID_LOGS.to_vec());
    other.message.as_mut().unwrap().instructions[2] = Instruction::Other;
    assert!(matches!(bid_from_transaction(&other), Ok(TxOutcome::UnexpectedShape)));

    let mut keyless = bid_tx("k", 1, 1, BID_LOGS.to_vec());
    keyless.message.as_mut().unwrap().account_keys.clear();
    assert!(matches!(bid_from_transaction(&keyless), Ok(TxOutcome::UnexpectedShape)));

    assert_eq!(reconstruct_bids(&vec![unparsed, short, other, keyless]).unwrap().len(), 0);
}

#[test]
fn failed_bid_is_flagged() {
    let mut tx = bid_tx("f", 3, 77, BID_LOGS.to_vec());
    tx.meta.as_mut().unwrap().failed = true;
    match bid_from_transaction(&tx).unwrap() {
        TxOutcome::Bid(b) => assert!(b.failed),
        _ => panic!("expected a bid"),
    }
}

#[test]
fn bid_amount_is_last_eight_bytes_little_endian() {
    assert_eq!(bid_amount_from_data(&[9, 9, 1, 0, 0, 0, 0, 0, 0, 1]), 1 | 1u64 << 56);
    assert_eq!(bid_amount_from_data(&[0xe8, 3, 0, 0, 0, 0, 0, 0]), 1000);
    assert_eq!(bid_amount_from_data(&[1, 2, 3]), 0);
    assert_eq!(bid_amount_from_text(&amount_text(123_456)), 123_456);
    assert_eq!(bid_amount_from_text("0OIl"), 0);
    assert_eq!(bid_amount_from_text("2g"), 0);
}

#[test]
fn amount_delta_needs_both_amounts() {
    let prev = entry(1, 100, "p");
    assert_eq!(entry(2, 150, "c").amount_delta(&prev), Some(50));
    assert_eq!(entry(2, 40, "c").amount_delta(&prev), Some(-60));
    assert_eq!(entry(2, 0, "c").amount_delta(&prev), None);
    assert_eq!(entry(2, 10, "c").amount_delta(&entry(1, 0, "p")), None);
}

#[test]
fn marker_search() {
    assert!(str_contains("xx Program log: Instruction: Bid yy", BID_LOG_MARKER));
    assert!(!str_contains("Program log: Instruction: Bi", BID_LOG_MARKER));
    assert!(str_contains("abc", ""));
    assert!(!str_contains("", "a"));
    assert!(logs_mark_bid(&vec!["a".to_string(), BID_LOG_MARKER.to_string()]));
    assert!(!logs_mark_bid(&vec![]));
}
