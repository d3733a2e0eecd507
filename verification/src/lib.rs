//! A verified binary codec for a subset of the Bitcoin transaction wire
//! format: variable-length integers, transaction identifiers, previous-output
//! references, scripts, transaction inputs, and the transaction envelope.
//!
//! Every component encodes to a canonical byte sequence and decodes by a
//! single forward cursor walk, reporting how many bytes it consumed.

pub mod error;
pub mod input;
pub mod outpoint;
pub mod script;
pub mod transaction;
pub mod txid;
pub mod varint;
