use crate::convert::{base58_encode, base58_of};
use crate::layout::Address;
use std::str::FromStr;
use vstd::prelude::*;

verus! {

/// The order lookup endpoint; the order identifier follows it.
pub const ORDER_API_URL: &'static str = "https://explorer-api.mayan.finance/v3/swap/order-id/";

/// The text is an account address: the base58 text of 32 bytes.
pub open spec fn is_address_text(s: Seq<char>) -> bool {
    exists|b: Seq<u8>| b.len() == 32 && #[trigger] base58_of(b) == s
}

/// Relies on `solana_sdk::pubkey::Pubkey::from_str`, used to tell addresses
/// from other texts: it refuses texts of more than 44 bytes and decodes the
/// rest as base58 onto exactly 32 bytes, refusing texts whose leading `1`s do
/// not match the leading zero bytes. So it accepts exactly the base58 texts of
/// 32 bytes, and then holds those bytes.
#[verifier::external_body]
fn pubkey_from_text(s: &str) -> (r: Option<Address>)
    ensures
        r is Some ==> base58_of(r->Some_0.bytes@) == s@,
        forall|b: Seq<u8>|
            b.len() == 32 && #[trigger] base58_of(b) == s@ ==> r is Some && r->Some_0.bytes@ == b,
{
    match solana_sdk::pubkey::Pubkey::from_str(s) {
        Ok(p) => Some(Address { bytes: p.to_bytes() }),
        Err(_) => None,
    }
}

impl Address {
    /// Reads an address from its base58 text.
    pub fn parse(s: &str) -> (r: Option<Address>)
        ensures
            r is Some <==> is_address_text(s@),
            r is Some ==> base58_of(r->Some_0.bytes@) == s@,
    {
        pubkey_from_text(s)
    }

    /// The address's base58 text.
    pub fn to_base58(&self) -> (r: String)
        ensures
            r@ == base58_of(self.bytes@),
    {
        base58_encode(self.bytes.as_slice())
    }
}

/// What a lookup argument names.
#[derive(Clone, Copy, Debug, PartialEq, Eq)]
pub enum Lookup {
    /// The argument is itself the auction account's address.
    Account(Address),
    /// The argument is an order identifier, to be resolved through the order API.
    Order,
}

/// Tells an auction account address from an order identifier: a text that
/// reads as an address is taken as one, and only any other text goes to the
/// order API.
pub fn classify_input(input: &str) -> (r: Lookup)
    ensures
        r is Account <==> is_address_text(input@),
        r matches Lookup::Account(a) ==> base58_of(a.bytes@) == input@,
{
    match Address::parse(input) {
        Some(a) => Lookup::Account(a),
        None => Lookup::Order,
    }
}

/// The order API address that describes the order `order_id`.
pub fn order_url(order_id: &str) -> (r: String)
    ensures
        r@ == ORDER_API_URL@ + order_id@,
{
    let mut url = ORDER_API_URL.to_owned();
    url.append(order_id);
    url
}

} // verus!
