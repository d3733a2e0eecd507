//! References to a previous transaction output: a transaction id plus a
//! 32-bit output index, always exactly 36 bytes on the wire.
use vstd::prelude::*;

use crate::error::BitcoinError;
use crate::txid::Txid;
use vstd::bytes::spec_u32_from_le_bytes;
use vstd::bytes::spec_u32_to_le_bytes;
use vstd::bytes::u32_from_le_bytes;
use vstd::bytes::u32_to_le_bytes;
use vstd::bytes::lemma_auto_spec_u32_to_from_le_bytes;
use vstd::slice::slice_index_get;
use vstd::slice::slice_subrange;

verus! {

/// A fixed 36-byte reference to a previous transaction output.
#[derive(Debug, PartialEq, Eq, Clone)]
pub struct OutPoint {
    pub txid: Txid,
    pub vout: u32,
}

/// The mathematical value of an `OutPoint`: the 32 id bytes and the index.
#[verifier::ext_equal]
pub struct OutPointView {
    pub txid: Seq<u8>,
    pub vout: u32,
}

impl OutPointView {
    /// The id must hold exactly 32 bytes.
    pub open spec fn wf(self) -> bool {
        self.txid.len() == 32
    }
}

impl View for OutPoint {
    type V = OutPointView;

    open spec fn view(&self) -> OutPointView {
        OutPointView { txid: self.txid@, vout: self.vout }
    }
}

/// The 36-byte wire form: the raw id bytes, then the index in little-endian.
pub open spec fn spec_outpoint_encode(o: OutPointView) -> Seq<u8>
    recommends
        o.wf(),
{
    o.txid + spec_u32_to_le_bytes(o.vout)
}

/// What decoding a buffer yields: the first 36 bytes split into id and
/// index, or `None` when fewer than 36 bytes remain.
pub open spec fn spec_outpoint_decode(b: Seq<u8>) -> Option<(OutPointView, int)> {
    if b.len() >= 36 {
        Some(
            (
                OutPointView {
                    txid: b.subrange(0, 32),
                    vout: spec_u32_from_le_bytes(b.subrange(32, 36)),
                },
                36,
            ),
        )
    } else {
        None
    }
}

impl OutPoint {
    pub fn new(txid: [u8; 32], vout: u32) -> (r: Self)
        ensures
            r@ == (OutPointView { txid: txid@, vout }),
            r@.wf(),
    {
        Self { txid: Txid(txid), vout }
    }

    /// Encode to exactly 36 bytes.
    pub fn to_bytes(&self) -> (r: Vec<u8>)
        ensures
            r@ == spec_outpoint_encode(self@),
            r@.len() == 36,
    {
        let mut v: Vec<u8> = Vec::new();
        let mut i: usize = 0;
        while i < 32
            invariant
                i <= 32,
                v@ =~= self.txid.0@.subrange(0, i as int),
            decreases 32 - i,
        {
            v.push(*slice_index_get(self.txid.0.as_slice(), i));
            i = i + 1;
        }
        let mut idx = u32_to_le_bytes(self.vout);
        v.append(&mut idx);
        proof {
            lemma_auto_spec_u32_to_from_le_bytes();
            assert(v@ =~= spec_outpoint_encode(self@));
        }
        v
    }

    /// Decode the first 36 bytes of `bytes`; fails exactly when fewer than
    /// 36 bytes are available.
    pub fn from_bytes(bytes: &[u8]) -> (r: Result<(Self, usize), BitcoinError>)
        ensures
            match r {
                Ok((o, n)) => {
                    &&& spec_outpoint_decode(bytes@) == Some((o@, n as int))
                    &&& o@.wf()
                    &&& n == 36
                },
                Err(e) => {
                    &&& spec_outpoint_decode(bytes@) is None
                    &&& e == BitcoinError::InsufficientBytes
                },
            },
    {
        if bytes.len() < 36 {
            return Err(BitcoinError::InsufficientBytes);
        }
        let mut txid = [0u8; 32];
        let mut i: usize = 0;
        while i < 32
            invariant
                i <= 32,
                bytes@.len() >= 36,
                forall|j: int| 0 <= j < i ==> txid@[j] == bytes@[j],
            decreases 32 - i,
        {
            txid[i] = *slice_index_get(bytes, i);
            i = i + 1;
        }
        let vout = u32_from_le_bytes(slice_subrange(bytes, 32, 36));
        proof {
            assert(txid@ =~= bytes@.subrange(0, 32));
        }
        Ok((OutPoint::new(txid, vout), 36))
    }
}

/// Round trip: decoding an encoding, with any bytes following it, yields the
/// encoded value back and consumes exactly its 36 bytes.
pub proof fn lemma_outpoint_round_trip(o: OutPointView, rest: Seq<u8>)
    requires
        o.wf(),
    ensures
        spec_outpoint_decode(spec_outpoint_encode(o) + rest) == Some((o, 36int)),
        spec_outpoint_encode(o).len() == 36,
{
    lemma_auto_spec_u32_to_from_le_bytes();
    let b = spec_outpoint_encode(o) + rest;
    assert(b.subrange(0, 32) =~= o.txid);
    assert(b.subrange(32, 36) =~= spec_u32_to_le_bytes(o.vout));
    assert(spec_outpoint_decode(b).unwrap().0 =~= o);
}

/// Cutting a decodable buffer before its 36th byte makes decoding fail;
/// cutting at or after it leaves the result unchanged.
pub proof fn lemma_outpoint_decode_prefix(b: Seq<u8>, m: int)
    requires
        spec_outpoint_decode(b) is Some,
        0 <= m <= b.len(),
    ensures
        m >= 36 ==> spec_outpoint_decode(b.subrange(0, m)) == spec_outpoint_decode(b),
        m < 36 ==> spec_outpoint_decode(b.subrange(0, m)) is None,
{
    let p = b.subrange(0, m);
    if m >= 36 {
        assert(p.subrange(0, 32) =~= b.subrange(0, 32));
        assert(p.subrange(32, 36) =~= b.subrange(32, 36));
        assert(spec_outpoint_decode(p).unwrap().0 =~= spec_outpoint_decode(b).unwrap().0);
    }
}

} // verus!
