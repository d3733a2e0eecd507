//! Transaction inputs: a previous-output reference, a script, and a 32-bit
//! sequence number, encoded strictly in that field order.
use vstd::prelude::*;

use crate::error::BitcoinError;
use crate::outpoint::OutPoint;
use crate::outpoint::OutPointView;
use crate::outpoint::lemma_outpoint_decode_prefix;
use crate::outpoint::lemma_outpoint_round_trip;
use crate::outpoint::spec_outpoint_decode;
use crate::outpoint::spec_outpoint_encode;
use crate::script::Script;
use crate::script::lemma_script_decode_prefix;
use crate::script::lemma_script_round_trip;
use crate::script::spec_script_decode;
use crate::script::spec_script_encode;
use vstd::bytes::lemma_auto_spec_u32_to_from_le_bytes;
use vstd::bytes::spec_u32_from_le_bytes;
use vstd::bytes::spec_u32_to_le_bytes;
use vstd::bytes::u32_from_le_bytes;
use vstd::bytes::u32_to_le_bytes;
use vstd::slice::slice_subrange;

verus! {

/// One input of a transaction.
#[derive(Debug, PartialEq, Eq, Clone)]
pub struct TransactionInput {
    pub previous_output: OutPoint,
    pub script_sig: Script,
    pub sequence: u32,
}

/// The mathematical value of a `TransactionInput`.
#[verifier::ext_equal]
pub struct InputView {
    pub previous_output: OutPointView,
    pub script_sig: Seq<u8>,
    pub sequence: u32,
}

impl InputView {
    /// The previous-output reference is well formed and the script payload
    /// can be announced by a 64-bit length prefix.
    pub open spec fn wf(self) -> bool {
        &&& self.previous_output.wf()
        &&& self.script_sig.len() <= u64::MAX
    }
}

impl View for TransactionInput {
    type V = InputView;

    open spec fn view(&self) -> InputView {
        InputView {
            previous_output: self.previous_output@,
            script_sig: self.script_sig@,
            sequence: self.sequence,
        }
    }
}

/// The wire form: the 36 previous-output bytes, the length-prefixed script,
/// then the sequence number in little-endian.
pub open spec fn spec_input_encode(i: InputView) -> Seq<u8>
    recommends
        i.wf(),
{
    spec_outpoint_encode(i.previous_output) + spec_script_encode(i.script_sig)
        + spec_u32_to_le_bytes(i.sequence)
}

/// What decoding a buffer yields: the three fields read in order, each
/// sub-decoder consuming a prefix of what remains, or `None` as soon as one
/// of them runs out of bytes.
pub open spec fn spec_input_decode(b: Seq<u8>) -> Option<(InputView, int)> {
    match spec_outpoint_decode(b) {
        None => None,
        Some((o, n1)) => match spec_script_decode(b.skip(n1)) {
            None => None,
            Some((s, n2)) => if n1 + n2 + 4 <= b.len() {
                Some(
                    (
                        InputView {
                            previous_output: o,
                            script_sig: s,
                            sequence: spec_u32_from_le_bytes(b.subrange(n1 + n2, n1 + n2 + 4)),
                        },
                        n1 + n2 + 4,
                    ),
                )
            } else {
                None
            },
        },
    }
}

impl TransactionInput {
    pub fn new(previous_output: OutPoint, script_sig: Script, sequence: u32) -> (r: Self)
        ensures
            r@ == (InputView {
                previous_output: previous_output@,
                script_sig: script_sig@,
                sequence,
            }),
    {
        Self { previous_output, script_sig, sequence }
    }

    /// Encode the three fields in order.
    pub fn to_bytes(&self) -> (r: Vec<u8>)
        ensures
            r@ == spec_input_encode(self@),
    {
        let mut v = self.previous_output.to_bytes();
        let mut script = self.script_sig.to_bytes();
        v.append(&mut script);
        let mut seq_bytes = u32_to_le_bytes(self.sequence);
        v.append(&mut seq_bytes);
        v
    }

    /// Decode the three fields in order from the front of `bytes`,
    /// propagating the first sub-decoder failure unchanged.
    pub fn from_bytes(bytes: &[u8]) -> (r: Result<(Self, usize), BitcoinError>)
        ensures
            match r {
                Ok((i, n)) => {
                    &&& spec_input_decode(bytes@) == Some((i@, n as int))
                    &&& 41 <= n <= bytes@.len()
                },
                Err(e) => {
                    &&& spec_input_decode(bytes@) is None
                    &&& e == BitcoinError::InsufficientBytes
                },
            },
    {
        let (outpoint, used1) = match OutPoint::from_bytes(bytes) {
            Ok(p) => p,
            Err(e) => {
                return Err(e);
            },
        };
        let tail = slice_subrange(bytes, used1, bytes.len());
        proof {
            assert(tail@ =~= bytes@.skip(used1 as int));
        }
        let (script, used2) = match Script::from_bytes(tail) {
            Ok(p) => p,
            Err(e) => {
                return Err(e);
            },
        };
        if bytes.len() - (used1 + used2) < 4 {
            return Err(BitcoinError::InsufficientBytes);
        }
        let sequence = u32_from_le_bytes(slice_subrange(bytes, used1 + used2, used1 + used2 + 4));
        Ok((TransactionInput::new(outpoint, script, sequence), used1 + used2 + 4))
    }
}

/// Round trip: decoding an encoding, with any bytes following it, yields the
/// encoded input back and consumes exactly the encoding.
pub proof fn lemma_input_round_trip(i: InputView, rest: Seq<u8>)
    requires
        i.wf(),
    ensures
        spec_input_decode(spec_input_encode(i) + rest) == Some(
            (i, spec_input_encode(i).len() as int),
        ),
{
    let eo = spec_outpoint_encode(i.previous_output);
    let es = spec_script_encode(i.script_sig);
    let eq = spec_u32_to_le_bytes(i.sequence);
    let b = spec_input_encode(i) + rest;
    lemma_auto_spec_u32_to_from_le_bytes();
    assert(b =~= eo + (es + (eq + rest)));
    lemma_outpoint_round_trip(i.previous_output, es + (eq + rest));
    assert(spec_outpoint_decode(b) == Some((i.previous_output, 36int)));
    assert(b.skip(36) =~= es + (eq + rest));
    lemma_script_round_trip(i.script_sig, eq + rest);
    let n2 = es.len() as int;
    assert(spec_script_decode(b.skip(36)) == Some((i.script_sig, n2)));
    assert(b.subrange(36 + n2, 36 + n2 + 4) =~= eq);
    assert(spec_input_decode(b).unwrap().0 =~= i);
}

/// Cutting a decodable buffer anywhere before the bytes it consumes makes
/// decoding fail; cutting at or after them leaves the result unchanged.
pub proof fn lemma_input_decode_prefix(b: Seq<u8>, m: int)
    requires
        spec_input_decode(b) is Some,
        0 <= m <= b.len(),
    ensures
        m >= spec_input_decode(b).unwrap().1 ==> spec_input_decode(b.subrange(0, m))
            == spec_input_decode(b),
        m < spec_input_decode(b).unwrap().1 ==> spec_input_decode(b.subrange(0, m)) is None,
{
    let p = b.subrange(0, m);
    lemma_outpoint_decode_prefix(b, m);
    if m >= 36 {
        let (s, n2) = spec_script_decode(b.skip(36)).unwrap();
        assert(p.skip(36) =~= b.skip(36).subrange(0, m - 36));
        lemma_script_decode_prefix(b.skip(36), m - 36);
        if m - 36 >= n2 {
            assert(spec_script_decode(p.skip(36)) == spec_script_decode(b.skip(36)));
            if m >= 36 + n2 + 4 {
                assert(p.subrange(36 + n2, 36 + n2 + 4) =~= b.subrange(36 + n2, 36 + n2 + 4));
                assert(spec_input_decode(p).unwrap().0 =~= spec_input_decode(b).unwrap().0);
            }
        }
    }
}

} // verus!
