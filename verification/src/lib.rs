//! A codec for a token-issuance and transfer protocol whose operations ride
//! inside one output script of a blockchain transaction.
//!
//! Decoding locates the marked script, gathers its data pushes into a payload,
//! reads the payload as variable-length integers, interprets those as a tagged
//! field grammar followed by run-length edicts, and classifies the result as a
//! well-formed operation or a cenotaph. Encoding produces the exact payload a
//! well-formed encoder emits, so that decoding it reproduces the operation.

pub mod model;
pub mod varint;
pub mod tags;
pub mod edicts;
pub mod etching;
pub mod script;
pub mod codec;
pub mod outside;
pub mod laws;

pub use model::{
    Artifact, BlockRange, Cenotaph, Edict, Etching, Flaw, FlawSet, RuneId, Runestone, Terms,
};
pub use varint::{decode_integers, encode_integers, varint_decode, varint_encode_to};
pub use codec::{decipher, decipher_outputs, decipher_payload, encipher};
