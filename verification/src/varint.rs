//! Bitcoin's variable-length unsigned integer scheme (`CompactSize`).
//!
//! The encoder always emits the minimal-width form for a magnitude; the
//! decoder accepts any well-formed prefix, minimal or not, and only ever
//! fails when the buffer is too short for the width the first byte declares.
use vstd::prelude::*;

use crate::error::BitcoinError;
use vstd::bytes::lemma_auto_spec_u16_to_from_le_bytes;
use vstd::bytes::lemma_auto_spec_u32_to_from_le_bytes;
use vstd::bytes::lemma_auto_spec_u64_to_from_le_bytes;
use vstd::bytes::spec_u16_from_le_bytes;
use vstd::bytes::spec_u16_to_le_bytes;
use vstd::bytes::spec_u32_from_le_bytes;
use vstd::bytes::spec_u32_to_le_bytes;
use vstd::bytes::spec_u64_from_le_bytes;
use vstd::bytes::spec_u64_to_le_bytes;
use vstd::bytes::u16_from_le_bytes;
use vstd::bytes::u16_to_le_bytes;
use vstd::bytes::u32_from_le_bytes;
use vstd::bytes::u32_to_le_bytes;
use vstd::bytes::u64_from_le_bytes;
use vstd::bytes::u64_to_le_bytes;
use vstd::slice::slice_index_get;
use vstd::slice::slice_subrange;

verus! {

/// A variable-length unsigned 64-bit magnitude.
#[derive(Debug, PartialEq, Eq, Clone)]
pub struct CompactSize {
    pub value: u64,
}

/// The minimal-width wire form of a magnitude: one byte for 0..=252, else a
/// marker byte (0xfd / 0xfe / 0xff) followed by the value as a 2-, 4- or
/// 8-byte little-endian integer.
pub open spec fn spec_varint_encode(v: u64) -> Seq<u8> {
    if v <= 252 {
        seq![v as u8]
    } else if v <= 0xffff {
        seq![0xfdu8] + spec_u16_to_le_bytes(v as u16)
    } else if v <= 0xffff_ffff {
        seq![0xfeu8] + spec_u32_to_le_bytes(v as u32)
    } else {
        seq![0xffu8] + spec_u64_to_le_bytes(v)
    }
}

/// What decoding a buffer yields: the magnitude and the number of bytes
/// consumed, or `None` when the buffer ends before the width the first byte
/// declares. Non-minimal encodings are accepted on purpose: only truncation
/// is a failure.
pub open spec fn spec_varint_decode(b: Seq<u8>) -> Option<(u64, int)> {
    if b.len() == 0 {
        None
    } else if b[0] <= 0xfc {
        Some((b[0] as u64, 1))
    } else if b[0] == 0xfd {
        if b.len() >= 3 {
            Some((spec_u16_from_le_bytes(b.subrange(1, 3)) as u64, 3))
        } else {
            None
        }
    } else if b[0] == 0xfe {
        if b.len() >= 5 {
            Some((spec_u32_from_le_bytes(b.subrange(1, 5)) as u64, 5))
        } else {
            None
        }
    } else {
        if b.len() >= 9 {
            Some((spec_u64_from_le_bytes(b.subrange(1, 9)), 9))
        } else {
            None
        }
    }
}

impl CompactSize {
    pub fn new(value: u64) -> (r: Self)
        ensures
            r.value == value,
    {
        Self { value }
    }

    /// Encode the magnitude in its minimal-width wire form.
    pub fn to_bytes(&self) -> (r: Vec<u8>)
        ensures
            r@ == spec_varint_encode(self.value),
    {
        if self.value <= 252 {
            let mut v: Vec<u8> = Vec::new();
            v.push(self.value as u8);
            proof {
                assert(v@ =~= spec_varint_encode(self.value));
            }
            v
        } else if self.value <= 0xffff {
            let mut v: Vec<u8> = Vec::new();
            v.push(0xfd);
            let mut tail = u16_to_le_bytes(self.value as u16);
            v.append(&mut tail);
            proof {
                assert(v@ =~= spec_varint_encode(self.value));
            }
            v
        } else if self.value <= 0xffff_ffff {
            let mut v: Vec<u8> = Vec::new();
            v.push(0xfe);
            let mut tail = u32_to_le_bytes(self.value as u32);
            v.append(&mut tail);
            proof {
                assert(v@ =~= spec_varint_encode(self.value));
            }
            v
        } else {
            let mut v: Vec<u8> = Vec::new();
            v.push(0xff);
            let mut tail = u64_to_le_bytes(self.value);
            v.append(&mut tail);
            proof {
                assert(v@ =~= spec_varint_encode(self.value));
            }
            v
        }
    }

    /// Decode a magnitude from the front of `bytes`, reporting how many
    /// bytes were consumed; fails exactly when the buffer is shorter than
    /// the width the first byte declares.
    pub fn from_bytes(bytes: &[u8]) -> (r: Result<(Self, usize), BitcoinError>)
        ensures
            match r {
                Ok((cs, n)) => {
                    &&& spec_varint_decode(bytes@) == Some((cs.value, n as int))
                    &&& 1 <= n <= bytes@.len()
                },
                Err(e) => {
                    &&& spec_varint_decode(bytes@) is None
                    &&& e == BitcoinError::InsufficientBytes
                },
            },
    {
        if bytes.len() == 0 {
            return Err(BitcoinError::InsufficientBytes);
        }
        let b0 = *slice_index_get(bytes, 0);
        if b0 <= 0xfc {
            Ok((CompactSize::new(b0 as u64), 1))
        } else if b0 == 0xfd {
            if bytes.len() < 3 {
                return Err(BitcoinError::InsufficientBytes);
            }
            let val = u16_from_le_bytes(slice_subrange(bytes, 1, 3));
            Ok((CompactSize::new(val as u64), 3))
        } else if b0 == 0xfe {
            if bytes.len() < 5 {
                return Err(BitcoinError::InsufficientBytes);
            }
            let val = u32_from_le_bytes(slice_subrange(bytes, 1, 5));
            Ok((CompactSize::new(val as u64), 5))
        } else {
            if bytes.len() < 9 {
                return Err(BitcoinError::InsufficientBytes);
            }
            let val = u64_from_le_bytes(slice_subrange(bytes, 1, 9));
            Ok((CompactSize::new(val), 9))
        }
    }
}

/// Width boundaries: an encoding is a single value byte for 0..=252, and
/// otherwise 3, 5 or 9 bytes behind the marker its width class selects.
pub proof fn lemma_varint_encode_form(v: u64)
    ensures
        v <= 252 ==> spec_varint_encode(v) == seq![v as u8],
        253 <= v <= 0xffff ==> spec_varint_encode(v).len() == 3 && spec_varint_encode(v)[0]
            == 0xfd,
        0x10000 <= v <= 0xffff_ffff ==> spec_varint_encode(v).len() == 5 && spec_varint_encode(
            v,
        )[0] == 0xfe,
        v > 0xffff_ffff ==> spec_varint_encode(v).len() == 9 && spec_varint_encode(v)[0] == 0xff,
{
    lemma_auto_spec_u16_to_from_le_bytes();
    lemma_auto_spec_u32_to_from_le_bytes();
    lemma_auto_spec_u64_to_from_le_bytes();
}

/// Round trip: decoding an encoding, with any bytes following it, yields the
/// encoded magnitude back and consumes exactly the encoding.
pub proof fn lemma_varint_round_trip(v: u64, rest: Seq<u8>)
    ensures
        spec_varint_decode(spec_varint_encode(v) + rest) == Some(
            (v, spec_varint_encode(v).len() as int),
        ),
{
    lemma_auto_spec_u16_to_from_le_bytes();
    lemma_auto_spec_u32_to_from_le_bytes();
    lemma_auto_spec_u64_to_from_le_bytes();
    let b = spec_varint_encode(v) + rest;
    if v <= 252 {
        assert(b[0] == v as u8);
    } else if v <= 0xffff {
        assert(b[0] == 0xfdu8);
        assert(b.subrange(1, 3) =~= spec_u16_to_le_bytes(v as u16));
        assert(spec_u16_from_le_bytes(b.subrange(1, 3)) == v as u16);
    } else if v <= 0xffff_ffff {
        assert(b[0] == 0xfeu8);
        assert(b.subrange(1, 5) =~= spec_u32_to_le_bytes(v as u32));
        assert(spec_u32_from_le_bytes(b.subrange(1, 5)) == v as u32);
    } else {
        assert(b[0] == 0xffu8);
        assert(b.subrange(1, 9) =~= spec_u64_to_le_bytes(v));
        assert(spec_u64_from_le_bytes(b.subrange(1, 9)) == v);
    }
}

/// Cutting a decodable buffer anywhere before the bytes it consumes makes
/// decoding fail; cutting at or after them leaves the result unchanged.
pub proof fn lemma_varint_decode_prefix(b: Seq<u8>, m: int)
    requires
        spec_varint_decode(b) is Some,
        0 <= m <= b.len(),
    ensures
        m >= spec_varint_decode(b).unwrap().1 ==> spec_varint_decode(b.subrange(0, m))
            == spec_varint_decode(b),
        m < spec_varint_decode(b).unwrap().1 ==> spec_varint_decode(b.subrange(0, m)) is None,
{
    let p = b.subrange(0, m);
    if m > 0 {
        assert(p[0] == b[0]);
        if b[0] == 0xfd && m >= 3 {
            assert(p.subrange(1, 3) =~= b.subrange(1, 3));
        }
        if b[0] == 0xfe && m >= 5 {
            assert(p.subrange(1, 5) =~= b.subrange(1, 5));
        }
        if b[0] > 0xfe && m >= 9 {
            assert(p.subrange(1, 9) =~= b.subrange(1, 9));
        }
    }
}

} // verus!
