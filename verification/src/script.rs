//! Scripts: an opaque byte payload carried on the wire behind a
//! variable-length integer that states how many payload bytes follow.
use vstd::prelude::*;

use crate::error::BitcoinError;
use crate::varint::CompactSize;
use crate::varint::lemma_varint_decode_prefix;
use crate::varint::lemma_varint_round_trip;
use crate::varint::spec_varint_decode;
use crate::varint::spec_varint_encode;
use vstd::slice::slice_subrange;
use vstd::slice::slice_to_vec;

verus! {

/// A length-prefixed opaque byte payload.
#[derive(Debug, PartialEq, Eq, Clone)]
pub struct Script {
    pub bytes: Vec<u8>,
}

impl View for Script {
    type V = Seq<u8>;

    open spec fn view(&self) -> Seq<u8> {
        self.bytes@
    }
}

/// The wire form: the payload length as a variable-length integer, then the
/// payload itself.
pub open spec fn spec_script_encode(s: Seq<u8>) -> Seq<u8>
    recommends
        s.len() <= u64::MAX,
{
    spec_varint_encode(s.len() as u64) + s
}

/// What decoding a buffer yields: the payload the length prefix announces
/// and the total bytes consumed, or `None` when the prefix itself, or the
/// payload it promises, does not fit in the buffer.
pub open spec fn spec_script_decode(b: Seq<u8>) -> Option<(Seq<u8>, int)> {
    match spec_varint_decode(b) {
        None => None,
        Some((v, n)) => if n + v <= b.len() {
            Some((b.subrange(n, n + v as int), n + v as int))
        } else {
            None
        },
    }
}

impl Script {
    pub fn new(bytes: Vec<u8>) -> (r: Self)
        ensures
            r@ == bytes@,
    {
        Self { bytes }
    }

    /// The raw payload, without the length prefix.
    pub fn as_bytes(&self) -> (r: &Vec<u8>)
        ensures
            r@ == self@,
    {
        &self.bytes
    }

    /// Encode as the length prefix followed by the payload.
    pub fn to_bytes(&self) -> (r: Vec<u8>)
        ensures
            r@ == spec_script_encode(self@),
    {
        let mut v = CompactSize::new(self.bytes.len() as u64).to_bytes();
        let mut payload = slice_to_vec(self.bytes.as_slice());
        v.append(&mut payload);
        v
    }

    /// Decode a length prefix and that many payload bytes from the front of
    /// `bytes`; fails exactly when the prefix or the promised payload does
    /// not fit.
    pub fn from_bytes(bytes: &[u8]) -> (r: Result<(Self, usize), BitcoinError>)
        ensures
            match r {
                Ok((s, n)) => {
                    &&& spec_script_decode(bytes@) == Some((s@, n as int))
                    &&& 1 <= n <= bytes@.len()
                },
                Err(e) => {
                    &&& spec_script_decode(bytes@) is None
                    &&& e == BitcoinError::InsufficientBytes
                },
            },
    {
        let (len_prefix, consumed) = match CompactSize::from_bytes(bytes) {
            Ok(p) => p,
            Err(e) => {
                return Err(e);
            },
        };
        let remaining = bytes.len() - consumed;
        if len_prefix.value > remaining as u64 {
            return Err(BitcoinError::InsufficientBytes);
        }
        let len = len_prefix.value as usize;
        let data = slice_to_vec(slice_subrange(bytes, consumed, consumed + len));
        Ok((Script::new(data), consumed + len))
    }
}

/// Round trip: decoding an encoding, with any bytes following it, yields the
/// encoded payload back and consumes exactly the encoding.
pub proof fn lemma_script_round_trip(s: Seq<u8>, rest: Seq<u8>)
    requires
        s.len() <= u64::MAX,
    ensures
        spec_script_decode(spec_script_encode(s) + rest) == Some(
            (s, spec_script_encode(s).len() as int),
        ),
{
    let prefix = spec_varint_encode(s.len() as u64);
    let b = spec_script_encode(s) + rest;
    assert(b =~= prefix + (s + rest));
    lemma_varint_round_trip(s.len() as u64, s + rest);
    assert(b.subrange(prefix.len() as int, (prefix.len() + s.len()) as int) =~= s);
}

/// Cutting a decodable buffer anywhere before the bytes it consumes makes
/// decoding fail; cutting at or after them leaves the result unchanged.
pub proof fn lemma_script_decode_prefix(b: Seq<u8>, m: int)
    requires
        spec_script_decode(b) is Some,
        0 <= m <= b.len(),
    ensures
        m >= spec_script_decode(b).unwrap().1 ==> spec_script_decode(b.subrange(0, m))
            == spec_script_decode(b),
        m < spec_script_decode(b).unwrap().1 ==> spec_script_decode(b.subrange(0, m)) is None,
{
    let p = b.subrange(0, m);
    let (v, n) = spec_varint_decode(b).unwrap();
    lemma_varint_decode_prefix(b, m);
    if m >= n {
        assert(spec_varint_decode(p) == Some((v, n)));
        if m >= n + v {
            assert(p.subrange(n, n + v as int) =~= b.subrange(n, n + v as int));
        }
    }
}

} // verus!
