//! The two outside calls the codec leans on: hex decoding of the
//! transaction string, and consensus decoding of the transaction bytes
//! down to its output scripts. Everything after them is verified.

use vstd::prelude::*;

use bitcoin::consensus::Decodable;

use crate::codec::{hex_bytes, valid_hex};

verus! {

/// What the consensus decoder makes of a byte buffer: `None` when the
/// bytes are not a serialized transaction, otherwise the outputs' script
/// bytes in output order. The wire format is the blockchain's own, and
/// the outcome is a function of the bytes alone.
pub uninterp spec fn tx_outputs(b: Seq<u8>) -> Option<Seq<Seq<u8>>>;

/// Relies on hex::decode: both cases of the digits are accepted, an odd
/// length or a non-digit is an error, and each digit pair spells one byte.
#[verifier::external_body]
pub(crate) fn hex_decode(s: &str) -> (r: Option<Vec<u8>>)
    ensures
        match r {
            Some(v) => valid_hex(s@) && v@ == hex_bytes(s@),
            None => !valid_hex(s@),
        },
{
    hex::decode(s).ok()
}

/// Relies on bitcoin's `Transaction::consensus_decode`: reading the
/// consensus serialization from a cursor, which tolerates trailing bytes,
/// and handing back the outputs' script bytes in output order. The call
/// fails exactly where the decoder reads no transaction out of the bytes,
/// and what it yields is `tx_outputs` of the bytes, nothing else of the
/// environment.
#[verifier::external_body]
pub(crate) fn transaction_output_scripts(bytes: &Vec<u8>) -> (r: Option<Vec<Vec<u8>>>)
    ensures
        match r {
            Some(v) => tx_outputs(bytes@) == Some(v.deep_view()),
            None => tx_outputs(bytes@) is None,
        },
{
    let mut cursor = std::io::Cursor::new(bytes.as_slice());
    match bitcoin::Transaction::consensus_decode(&mut cursor) {
        Ok(tx) => Some(tx.output.iter().map(|o| o.script_pubkey.as_bytes().to_vec()).collect()),
        Err(_) => None,
    }
}

} // verus!
