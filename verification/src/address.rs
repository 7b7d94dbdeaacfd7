//! Wallet addresses: base58-encoded 32-byte public keys.
//!
//! Every entry point of the engine decodes and length-checks the wallet it is
//! handed before any mutation; a malformed address is rejected with
//! `InvalidAddress` and no side effect.

use vstd::prelude::*;
use crate::types::RewardError;

verus! {

/// Bytes decoded from a base58 string by the Bitcoin-alphabet decoder, or
/// None where the string is not valid base58; named here, computed by bs58.
pub uninterp spec fn base58_decode_of(s: Seq<char>) -> Option<Seq<u8>>;

/// A well-formed wallet address: a base58 string that decodes to exactly 32
/// bytes.
pub open spec fn wallet_is_valid(s: Seq<char>) -> bool {
    match base58_decode_of(s) {
        Some(b) => b.len() == 32,
        None => false,
    }
}

/// The 32-byte public key behind a well-formed wallet address.
pub open spec fn wallet_bytes(s: Seq<char>) -> Seq<u8>
    recommends
        wallet_is_valid(s),
{
    base58_decode_of(s).unwrap()
}

/// Relies on bs58::decode(..).into_vec(): decoding with the default Bitcoin
/// alphabet is a pure function of the input string, and returns an error
/// exactly on strings that are not valid base58.
#[verifier::external_body]
fn base58_decode(s: &str) -> (r: Option<Vec<u8>>)
    ensures
        (match r {
            Some(v) => base58_decode_of(s@) == Some(v@),
            None => base58_decode_of(s@) is None,
        }),
{
    match bs58::decode(s).into_vec() {
        Ok(v) => Some(v),
        Err(_) => None,
    }
}

/// Decodes a base58 wallet address and checks that it names a 32-byte public
/// key; rejects every other string with `InvalidAddress`.
pub fn decode_wallet_base58(wallet: &str) -> (r: Result<Vec<u8>, RewardError>)
    ensures
        (match r {
            Ok(b) => wallet_is_valid(wallet@) && b@ == wallet_bytes(wallet@),
            Err(e) => e == RewardError::InvalidAddress && !wallet_is_valid(wallet@),
        }),
{
    match base58_decode(wallet) {
        Some(b) => {
            if b.len() == 32 {
                Ok(b)
            } else {
                Err(RewardError::InvalidAddress)
            }
        },
        None => Err(RewardError::InvalidAddress),
    }
}

} // verus!
