//! The transaction envelope: a 32-bit version, a count-prefixed ordered
//! sequence of inputs, and a 32-bit lock time.
//!
//! Decoding is one forward cursor walk. The declared input count is not
//! bounded against the buffer up front: each input is bounds-checked
//! individually, so an oversized count fails on the first input that cannot
//! be satisfied.
use vstd::prelude::*;

use crate::error::BitcoinError;
use crate::input::InputView;
use crate::input::TransactionInput;
use crate::input::lemma_input_decode_prefix;
use crate::input::lemma_input_round_trip;
use crate::input::spec_input_decode;
use crate::input::spec_input_encode;
use crate::outpoint::spec_outpoint_decode;
use crate::script::spec_script_decode;
use crate::varint::CompactSize;
use crate::varint::lemma_varint_decode_prefix;
use crate::varint::lemma_varint_round_trip;
use crate::varint::spec_varint_decode;
use crate::varint::spec_varint_encode;
use vstd::bytes::lemma_auto_spec_u32_to_from_le_bytes;
use vstd::bytes::spec_u32_from_le_bytes;
use vstd::bytes::spec_u32_to_le_bytes;
use vstd::bytes::u32_from_le_bytes;
use vstd::bytes::u32_to_le_bytes;
use vstd::slice::slice_subrange;

verus! {

/// A transaction: version, ordered inputs, lock time.
#[derive(Debug, PartialEq, Eq, Clone)]
pub struct BitcoinTransaction {
    pub version: u32,
    pub inputs: Vec<TransactionInput>,
    pub lock_time: u32,
}

/// The mathematical value of a `BitcoinTransaction`.
#[verifier::ext_equal]
pub struct TxView {
    pub version: u32,
    pub inputs: Seq<InputView>,
    pub lock_time: u32,
}

impl TxView {
    /// Every input is well formed and the input count fits the count prefix.
    pub open spec fn wf(self) -> bool {
        &&& self.inputs.len() <= u64::MAX
        &&& forall|i: int| 0 <= i < self.inputs.len() ==> (#[trigger] self.inputs[i]).wf()
    }
}

/// The views of a sequence of inputs, in order.
pub open spec fn spec_inputs_view(s: Seq<TransactionInput>) -> Seq<InputView> {
    Seq::new(s.len(), |i: int| s[i]@)
}

impl View for BitcoinTransaction {
    type V = TxView;

    open spec fn view(&self) -> TxView {
        TxView {
            version: self.version,
            inputs: spec_inputs_view(self.inputs@),
            lock_time: self.lock_time,
        }
    }
}

/// The concatenation of the wire forms of a sequence of inputs, in order.
pub open spec fn spec_inputs_encode(inputs: Seq<InputView>) -> Seq<u8>
    decreases inputs.len(),
{
    if inputs.len() == 0 {
        Seq::empty()
    } else {
        spec_input_encode(inputs[0]) + spec_inputs_encode(inputs.skip(1))
    }
}

/// What decoding exactly `n` inputs from the front of a buffer yields: the
/// inputs and the total bytes consumed, or `None` as soon as one input
/// cannot be satisfied.
pub open spec fn spec_inputs_decode(b: Seq<u8>, n: nat) -> Option<(Seq<InputView>, int)>
    decreases n,
{
    if n == 0 {
        Some((Seq::empty(), 0))
    } else {
        match spec_input_decode(b) {
            None => None,
            Some((i, u)) => match spec_inputs_decode(b.skip(u), (n - 1) as nat) {
                None => None,
                Some((rest, u2)) => Some((seq![i] + rest, u + u2)),
            },
        }
    }
}

/// The wire form of a transaction: little-endian version, input count as a
/// variable-length integer, each input's encoding in order, then the
/// little-endian lock time.
pub open spec fn spec_tx_encode(t: TxView) -> Seq<u8>
    recommends
        t.wf(),
{
    spec_u32_to_le_bytes(t.version) + spec_varint_encode(t.inputs.len() as u64)
        + spec_inputs_encode(t.inputs) + spec_u32_to_le_bytes(t.lock_time)
}

/// What decoding a buffer yields: version, count, exactly that many inputs,
/// and the lock time, or `None` as soon as any step runs out of bytes.
pub open spec fn spec_tx_decode(b: Seq<u8>) -> Option<(TxView, int)> {
    if b.len() < 4 {
        None
    } else {
        let version = spec_u32_from_le_bytes(b.subrange(0, 4));
        match spec_varint_decode(b.skip(4)) {
            None => None,
            Some((count, nc)) => match spec_inputs_decode(b.skip(4 + nc), count as nat) {
                None => None,
                Some((ivs, ni)) => if 4 + nc + ni + 4 <= b.len() {
                    Some(
                        (
                            TxView {
                                version,
                                inputs: ivs,
                                lock_time: spec_u32_from_le_bytes(
                                    b.subrange(4 + nc + ni, 4 + nc + ni + 4),
                                ),
                            },
                            4 + nc + ni + 4,
                        ),
                    )
                } else {
                    None
                },
            },
        }
    }
}

impl BitcoinTransaction {
    pub fn new(version: u32, inputs: Vec<TransactionInput>, lock_time: u32) -> (r: Self)
        ensures
            r@ == (TxView { version, inputs: spec_inputs_view(inputs@), lock_time }),
    {
        Self { version, inputs, lock_time }
    }

    /// Encode the envelope: version, count, inputs in order, lock time.
    pub fn to_bytes(&self) -> (r: Vec<u8>)
        ensures
            r@ == spec_tx_encode(self@),
    {
        let mut v = u32_to_le_bytes(self.version);
        let mut count = CompactSize::new(self.inputs.len() as u64).to_bytes();
        v.append(&mut count);
        let ghost prefix = v@;
        let ghost views = spec_inputs_view(self.inputs@);
        let mut k: usize = 0;
        while k < self.inputs.len()
            invariant
                k <= self.inputs@.len(),
                views == spec_inputs_view(self.inputs@),
                v@ == prefix + spec_inputs_encode(views.take(k as int)),
            decreases self.inputs@.len() - k,
        {
            let mut ib = self.inputs[k].to_bytes();
            v.append(&mut ib);
            proof {
                assert(views.take(k as int).push(views[k as int]) =~= views.take(k + 1));
                lemma_inputs_encode_push(views.take(k as int), views[k as int]);
            }
            k = k + 1;
        }
        let mut lt = u32_to_le_bytes(self.lock_time);
        v.append(&mut lt);
        proof {
            assert(views.take(self.inputs@.len() as int) =~= views);
            assert(v@ =~= spec_tx_encode(self@));
        }
        v
    }

    /// Decode a transaction from the front of `bytes`: version, input
    /// count, exactly that many inputs, then the lock time, failing with
    /// the first sub-decoder that runs out of bytes.
    pub fn from_bytes(bytes: &[u8]) -> (r: Result<(Self, usize), BitcoinError>)
        ensures
            match r {
                Ok((t, n)) => {
                    &&& spec_tx_decode(bytes@) == Some((t@, n as int))
                    &&& 9 <= n <= bytes@.len()
                },
                Err(e) => {
                    &&& spec_tx_decode(bytes@) is None
                    &&& e == BitcoinError::InsufficientBytes
                },
            },
    {
        if bytes.len() < 4 {
            return Err(BitcoinError::InsufficientBytes);
        }
        let version = u32_from_le_bytes(slice_subrange(bytes, 0, 4));
        let after_version = slice_subrange(bytes, 4, bytes.len());
        proof {
            assert(after_version@ =~= bytes@.skip(4));
        }
        let (count_cs, offset) = match CompactSize::from_bytes(after_version) {
            Ok(p) => p,
            Err(e) => {
                return Err(e);
            },
        };
        let count: u64 = count_cs.value;
        let mut inputs: Vec<TransactionInput> = Vec::new();
        let mut cursor: usize = 4 + offset;
        let mut i: u64 = 0;
        while i < count
            invariant
                i <= count,
                4 <= 4 + offset <= cursor <= bytes@.len(),
                bytes@.len() >= 4,
                spec_varint_decode(bytes@.skip(4)) == Some((count, offset as int)),
                inputs@.len() == i as int,
                spec_inputs_decode(bytes@.skip(4 + offset as int), count as nat) == (match spec_inputs_decode(
                    bytes@.skip(cursor as int),
                    (count - i) as nat,
                ) {
                    None => None::<(Seq<InputView>, int)>,
                    Some((rest, u)) => Some(
                        (spec_inputs_view(inputs@) + rest, cursor - (4 + offset) + u),
                    ),
                }),
            decreases count - i,
        {
            let tail = slice_subrange(bytes, cursor, bytes.len());
            proof {
                assert(tail@ =~= bytes@.skip(cursor as int));
            }
            match TransactionInput::from_bytes(tail) {
                Err(e) => {
                    proof {
                        assert(spec_inputs_decode(bytes@.skip(cursor as int), (count - i) as nat)
                            is None);
                    }
                    return Err(e);
                },
                Ok((input, used)) => {
                    proof {
                        assert(bytes@.skip(cursor as int).skip(used as int) =~= bytes@.skip(
                            cursor + used,
                        ));
                    }
                    let ghost old_views = spec_inputs_view(inputs@);
                    inputs.push(input);
                    proof {
                        assert(spec_inputs_view(inputs@) =~= old_views + seq![input@]);
                        let rem = spec_inputs_decode(
                            bytes@.skip(cursor + used),
                            (count - i - 1) as nat,
                        );
                        if rem is Some {
                            let (rest2, u2) = rem.unwrap();
                            assert(old_views + (seq![input@] + rest2) =~= (old_views + seq![
                                input@,
                            ]) + rest2);
                        }
                    }
                    cursor = cursor + used;
                    i = i + 1;
                },
            }
        }
        proof {
            assert(spec_inputs_decode(bytes@.skip(cursor as int), 0nat) == Some(
                (Seq::<InputView>::empty(), 0int),
            ));
            assert(spec_inputs_view(inputs@) + Seq::<InputView>::empty() =~= spec_inputs_view(
                inputs@,
            ));
        }
        if bytes.len() - cursor < 4 {
            return Err(BitcoinError::InsufficientBytes);
        }
        let lock_time = u32_from_le_bytes(slice_subrange(bytes, cursor, cursor + 4));
        let r = BitcoinTransaction::new(version, inputs, lock_time);
        proof {
            assert(spec_tx_decode(bytes@).unwrap().0 =~= r@);
        }
        Ok((r, cursor + 4))
    }
}

/// Every constructed transaction value has a well-formed view: ids hold 32
/// bytes and script payloads fit a 64-bit length prefix. The round-trip law
/// therefore applies to every value this crate can build.
pub proof fn lemma_tx_view_wf(t: &BitcoinTransaction)
    ensures
        t@.wf(),
{
    vstd::std_specs::vec::axiom_spec_len(&t.inputs);
    assert forall|i: int| 0 <= i < t@.inputs.len() implies (#[trigger] t@.inputs[i]).wf() by {
        vstd::std_specs::vec::axiom_spec_len(&t.inputs@[i].script_sig.bytes);
        assert(t@.inputs[i].script_sig == t.inputs@[i].script_sig.bytes@);
    }
}

/// Appending one input to a sequence appends its encoding to the sequence's.
pub proof fn lemma_inputs_encode_push(s: Seq<InputView>, x: InputView)
    ensures
        spec_inputs_encode(s.push(x)) == spec_inputs_encode(s) + spec_input_encode(x),
    decreases s.len(),
{
    if s.len() == 0 {
        let t = s.push(x);
        assert(t[0] == x);
        assert(t.skip(1) =~= s);
        assert(spec_inputs_encode(s) == Seq::<u8>::empty());
        assert(spec_inputs_encode(t) == spec_input_encode(x) + Seq::<u8>::empty());
        assert(spec_inputs_encode(t) =~= spec_inputs_encode(s) + spec_input_encode(x));
    } else {
        let t = s.push(x);
        assert(t[0] == s[0]);
        assert(t.skip(1) =~= s.skip(1).push(x));
        lemma_inputs_encode_push(s.skip(1), x);
        assert(spec_inputs_encode(t) == spec_input_encode(s[0]) + spec_inputs_encode(
            s.skip(1).push(x),
        ));
        assert(spec_inputs_encode(t) =~= spec_inputs_encode(s) + spec_input_encode(x));
    }
}

/// A successful input-sequence decode consumes between 41 bytes per input
/// and the whole buffer.
pub proof fn lemma_inputs_decode_bounds(b: Seq<u8>, n: nat)
    requires
        spec_inputs_decode(b, n) is Some,
    ensures
        41 * n <= spec_inputs_decode(b, n).unwrap().1 <= b.len(),
        spec_inputs_decode(b, n).unwrap().0.len() == n,
    decreases n,
{
    if n != 0 {
        let (i0, u) = spec_input_decode(b).unwrap();
        lemma_inputs_decode_bounds(b.skip(u), (n - 1) as nat);
    }
}

/// Round trip for input sequences: decoding the concatenated encodings,
/// with any bytes following them, yields the inputs back and consumes
/// exactly the encodings.
pub proof fn lemma_inputs_round_trip(ivs: Seq<InputView>, rest: Seq<u8>)
    requires
        forall|i: int| 0 <= i < ivs.len() ==> (#[trigger] ivs[i]).wf(),
    ensures
        spec_inputs_decode(spec_inputs_encode(ivs) + rest, ivs.len()) == Some(
            (ivs, spec_inputs_encode(ivs).len() as int),
        ),
    decreases ivs.len(),
{
    if ivs.len() == 0 {
        assert(spec_inputs_encode(ivs) + rest =~= rest);
        assert(ivs =~= Seq::<InputView>::empty());
    } else {
        let e0 = spec_input_encode(ivs[0]);
        let etail = spec_inputs_encode(ivs.skip(1));
        let b = spec_inputs_encode(ivs) + rest;
        assert(b =~= e0 + (etail + rest));
        lemma_input_round_trip(ivs[0], etail + rest);
        assert(spec_input_decode(b) == Some((ivs[0], e0.len() as int)));
        assert(b.skip(e0.len() as int) =~= etail + rest);
        lemma_inputs_round_trip(ivs.skip(1), rest);
        assert(seq![ivs[0]] + ivs.skip(1) =~= ivs);
    }
}

/// Round trip: decoding the encoding of any well-formed transaction value
/// yields that value back and consumes the whole encoding.
pub proof fn lemma_tx_round_trip(t: TxView)
    requires
        t.wf(),
    ensures
        spec_tx_decode(spec_tx_encode(t)) == Some((t, spec_tx_encode(t).len() as int)),
{
    lemma_auto_spec_u32_to_from_le_bytes();
    let ev = spec_u32_to_le_bytes(t.version);
    let ec = spec_varint_encode(t.inputs.len() as u64);
    let ei = spec_inputs_encode(t.inputs);
    let el = spec_u32_to_le_bytes(t.lock_time);
    let b = spec_tx_encode(t);
    assert(b.subrange(0, 4) =~= ev);
    assert(b.skip(4) =~= ec + (ei + el));
    lemma_varint_round_trip(t.inputs.len() as u64, ei + el);
    let nc = ec.len() as int;
    assert(spec_varint_decode(b.skip(4)) == Some((t.inputs.len() as u64, nc)));
    assert(b.skip(4 + nc) =~= ei + el);
    lemma_inputs_round_trip(t.inputs, el);
    let ni = ei.len() as int;
    assert(spec_inputs_decode(b.skip(4 + nc), t.inputs.len()) == Some((t.inputs, ni)));
    assert(b.subrange(4 + nc + ni, 4 + nc + ni + 4) =~= el);
    assert(spec_tx_decode(b).unwrap().0 =~= t);
}

/// Cutting a buffer from which `n` inputs decode anywhere before the bytes
/// they consume makes decoding fail; cutting at or after them leaves the
/// result unchanged.
pub proof fn lemma_inputs_decode_prefix(b: Seq<u8>, n: nat, m: int)
    requires
        spec_inputs_decode(b, n) is Some,
        0 <= m <= b.len(),
    ensures
        m >= spec_inputs_decode(b, n).unwrap().1 ==> spec_inputs_decode(b.subrange(0, m), n)
            == spec_inputs_decode(b, n),
        m < spec_inputs_decode(b, n).unwrap().1 ==> spec_inputs_decode(b.subrange(0, m), n)
            is None,
    decreases n,
{
    if n == 0 {
        assert(spec_inputs_decode(b.subrange(0, m), n) == spec_inputs_decode(b, n));
    } else {
        let p = b.subrange(0, m);
        let (i0, u) = spec_input_decode(b).unwrap();
        let tailres = spec_inputs_decode(b.skip(u), (n - 1) as nat);
        assert(tailres is Some);
        let (r2, u2) = tailres.unwrap();
        assert(spec_inputs_decode(b, n).unwrap().1 == u + u2);
        lemma_inputs_decode_bounds(b.skip(u), (n - 1) as nat);
        lemma_input_decode_prefix(b, m);
        if m < u {
            assert(spec_input_decode(p) is None);
            assert(spec_inputs_decode(p, n) is None);
        } else {
            assert(spec_input_decode(p) == Some((i0, u)));
            assert(p.skip(u) =~= b.skip(u).subrange(0, m - u));
            lemma_inputs_decode_prefix(b.skip(u), (n - 1) as nat, m - u);
            if m < u + u2 {
                assert(spec_inputs_decode(p.skip(u), (n - 1) as nat) is None);
                assert(spec_inputs_decode(p, n) is None);
            } else {
                assert(spec_inputs_decode(p.skip(u), (n - 1) as nat) == tailres);
                assert(spec_inputs_decode(p, n) == spec_inputs_decode(b, n));
            }
        }
    }
}

/// Truncation: cutting a decodable transaction buffer anywhere before the
/// bytes it consumes makes decoding fail; cutting at or after them leaves
/// the result unchanged.
pub proof fn lemma_tx_decode_prefix(b: Seq<u8>, m: int)
    requires
        spec_tx_decode(b) is Some,
        0 <= m <= b.len(),
    ensures
        m >= spec_tx_decode(b).unwrap().1 ==> spec_tx_decode(b.subrange(0, m)) == spec_tx_decode(
            b,
        ),
        m < spec_tx_decode(b).unwrap().1 ==> spec_tx_decode(b.subrange(0, m)) is None,
{
    let p = b.subrange(0, m);
    let (count, nc) = spec_varint_decode(b.skip(4)).unwrap();
    let inres = spec_inputs_decode(b.skip(4 + nc), count as nat);
    assert(inres is Some);
    let (ivs, ni) = inres.unwrap();
    assert(spec_tx_decode(b).unwrap().1 == 4 + nc + ni + 4);
    lemma_inputs_decode_bounds(b.skip(4 + nc), count as nat);
    if m < 4 {
        assert(spec_tx_decode(p) is None);
    } else {
        assert(p.subrange(0, 4) =~= b.subrange(0, 4));
        assert(p.skip(4) =~= b.skip(4).subrange(0, m - 4));
        lemma_varint_decode_prefix(b.skip(4), m - 4);
        if m - 4 < nc {
            assert(spec_varint_decode(p.skip(4)) is None);
            assert(spec_tx_decode(p) is None);
        } else {
            assert(spec_varint_decode(p.skip(4)) == Some((count, nc)));
            assert(p.skip(4 + nc) =~= b.skip(4 + nc).subrange(0, m - 4 - nc));
            lemma_inputs_decode_prefix(b.skip(4 + nc), count as nat, m - 4 - nc);
            if m - 4 - nc < ni {
                assert(spec_inputs_decode(p.skip(4 + nc), count as nat) is None);
                assert(spec_tx_decode(p) is None);
            } else {
                assert(spec_inputs_decode(p.skip(4 + nc), count as nat) == inres);
                if m >= 4 + nc + ni + 4 {
                    assert(p.subrange(4 + nc + ni, 4 + nc + ni + 4) =~= b.subrange(
                        4 + nc + ni,
                        4 + nc + ni + 4,
                    ));
                    assert(spec_tx_decode(p).unwrap().0 =~= spec_tx_decode(b).unwrap().0);
                    assert(spec_tx_decode(p) == spec_tx_decode(b));
                } else {
                    assert(spec_tx_decode(p) is None);
                }
            }
        }
    }
}

/// Decoding any component from an empty buffer fails: no decoder ever
/// returns a default value for missing bytes.
pub proof fn lemma_decode_empty_fails()
    ensures
        spec_varint_decode(Seq::<u8>::empty()) is None,
        spec_outpoint_decode(Seq::<u8>::empty()) is None,
        spec_script_decode(Seq::<u8>::empty()) is None,
        spec_input_decode(Seq::<u8>::empty()) is None,
        spec_tx_decode(Seq::<u8>::empty()) is None,
{
}

} // verus!
