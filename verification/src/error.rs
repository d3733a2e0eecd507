//! The error taxonomy shared by every decoder in the crate.
use vstd::prelude::*;

verus! {

/// The two terminal failures a decode can report.
///
/// `InsufficientBytes` is raised whenever a decoder needs more bytes than
/// remain in the buffer. `InvalidFormat` is reserved for well-framed but
/// semantically invalid input, such as a transaction-id text form whose hex
/// does not describe exactly 32 bytes.
#[derive(Debug, PartialEq, Eq, Clone)]
pub enum BitcoinError {
    InsufficientBytes,
    InvalidFormat,
}

} // verus!
