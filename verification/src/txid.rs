//! Transaction identifiers: 32 raw bytes on the wire, 64 lowercase hex
//! characters at the data-interchange boundary.
//!
//! The wire format never length-prefixes a transaction id; reading one is
//! plain copying of 32 bytes and is done by the `OutPoint` codec. This
//! module owns the text form: rendering through `hex::encode` and parsing
//! through `hex::decode`, each behind a trusted wrapper whose contract is
//! stated over the spec functions below.
use vstd::prelude::*;

use crate::error::BitcoinError;
use vstd::arithmetic::div_mod::lemma_fundamental_div_mod;

verus! {

/// A 32-byte transaction identifier.
#[derive(Debug, PartialEq, Eq, Clone)]
pub struct Txid(pub [u8; 32]);

impl View for Txid {
    type V = Seq<u8>;

    open spec fn view(&self) -> Seq<u8> {
        self.0@
    }
}

/// The lowercase hex digit for a nibble.
pub open spec fn spec_hex_digit(n: u8) -> char
    recommends
        n < 16,
{
    if n == 0 {
        '0'
    } else if n == 1 {
        '1'
    } else if n == 2 {
        '2'
    } else if n == 3 {
        '3'
    } else if n == 4 {
        '4'
    } else if n == 5 {
        '5'
    } else if n == 6 {
        '6'
    } else if n == 7 {
        '7'
    } else if n == 8 {
        '8'
    } else if n == 9 {
        '9'
    } else if n == 10 {
        'a'
    } else if n == 11 {
        'b'
    } else if n == 12 {
        'c'
    } else if n == 13 {
        'd'
    } else if n == 14 {
        'e'
    } else {
        'f'
    }
}

/// The nibble a hex digit stands for, upper or lower case, or `None` for
/// any other character.
pub open spec fn spec_hex_val(c: char) -> Option<u8> {
    if c == '0' {
        Some(0u8)
    } else if c == '1' {
        Some(1u8)
    } else if c == '2' {
        Some(2u8)
    } else if c == '3' {
        Some(3u8)
    } else if c == '4' {
        Some(4u8)
    } else if c == '5' {
        Some(5u8)
    } else if c == '6' {
        Some(6u8)
    } else if c == '7' {
        Some(7u8)
    } else if c == '8' {
        Some(8u8)
    } else if c == '9' {
        Some(9u8)
    } else if c == 'a' || c == 'A' {
        Some(10u8)
    } else if c == 'b' || c == 'B' {
        Some(11u8)
    } else if c == 'c' || c == 'C' {
        Some(12u8)
    } else if c == 'd' || c == 'D' {
        Some(13u8)
    } else if c == 'e' || c == 'E' {
        Some(14u8)
    } else if c == 'f' || c == 'F' {
        Some(15u8)
    } else {
        None
    }
}

/// Lowercase hex rendering of a byte sequence: two digits per byte, high
/// nibble first.
pub open spec fn spec_hex_encode(b: Seq<u8>) -> Seq<char>
    decreases b.len(),
{
    if b.len() == 0 {
        Seq::empty()
    } else {
        seq![spec_hex_digit((b[0] / 16) as u8), spec_hex_digit((b[0] % 16) as u8)]
            + spec_hex_encode(b.skip(1))
    }
}

/// What parsing a hex text yields: the bytes the digit pairs spell, or
/// `None` when the length is odd or any character is not a hex digit.
pub open spec fn spec_hex_decode(s: Seq<char>) -> Option<Seq<u8>>
    decreases s.len(),
{
    if s.len() == 0 {
        Some(Seq::empty())
    } else if s.len() == 1 {
        None
    } else {
        match (spec_hex_val(s[0]), spec_hex_val(s[1])) {
            (Some(h), Some(l)) => match spec_hex_decode(s.skip(2)) {
                Some(rest) => Some(seq![(h * 16 + l) as u8] + rest),
                None => None,
            },
            _ => None,
        }
    }
}

/// Relies on `hex::encode`: the result is two lowercase hex digits per
/// input byte, high nibble first, in input order.
#[verifier::external_body]
fn hex_encode_bytes(b: &[u8]) -> (r: String)
    ensures
        r@ == spec_hex_encode(b@),
{
    hex::encode(b)
}

#[verifier::external_type_specification]
#[verifier::external_body]
pub struct ExFromHexError(hex::FromHexError);

/// Relies on `hex::decode`: it succeeds exactly on an even number of hex
/// digits (either case accepted) and returns the bytes the pairs spell;
/// an odd length or any other character is an error.
#[verifier::external_body]
fn hex_decode_str(s: &str) -> (r: Result<Vec<u8>, hex::FromHexError>)
    ensures
        r is Ok <==> spec_hex_decode(s@) is Some,
        r is Ok ==> r.unwrap()@ == spec_hex_decode(s@).unwrap(),
{
    hex::decode(s)
}

impl Txid {
    /// Render the identifier as its 64-character lowercase hex text form.
    pub fn to_hex(&self) -> (r: String)
        ensures
            r@ == spec_hex_encode(self@),
            r@.len() == 64,
    {
        let r = hex_encode_bytes(self.0.as_slice());
        proof {
            lemma_hex_encode_len(self@);
        }
        r
    }

    /// Parse the text form: exactly 64 hex characters describing 32 bytes.
    /// Any text whose hex decoding fails or yields another byte count is
    /// rejected as `InvalidFormat`.
    pub fn from_hex(s: &str) -> (r: Result<Txid, BitcoinError>)
        ensures
            match spec_hex_decode(s@) {
                Some(b) => {
                    &&& b.len() == 32 ==> (r matches Ok(t) && t@ == b)
                    &&& b.len() != 32 ==> r == Err::<Txid, BitcoinError>(
                        BitcoinError::InvalidFormat,
                    )
                },
                None => r == Err::<Txid, BitcoinError>(BitcoinError::InvalidFormat),
            },
    {
        match hex_decode_str(s) {
            Err(_) => Err(BitcoinError::InvalidFormat),
            Ok(v) => {
                if v.len() != 32 {
                    return Err(BitcoinError::InvalidFormat);
                }
                let mut arr = [0u8; 32];
                let mut i: usize = 0;
                while i < 32
                    invariant
                        i <= 32,
                        v@.len() == 32,
                        forall|j: int| 0 <= j < i ==> arr@[j] == v@[j],
                    decreases 32 - i,
                {
                    arr[i] = v[i];
                    i = i + 1;
                }
                proof {
                    assert(arr@ =~= v@);
                }
                Ok(Txid(arr))
            },
        }
    }
}

/// A hex rendering is exactly twice as long as the bytes it renders.
pub proof fn lemma_hex_encode_len(b: Seq<u8>)
    ensures
        spec_hex_encode(b).len() == 2 * b.len(),
    decreases b.len(),
{
    if b.len() > 0 {
        lemma_hex_encode_len(b.skip(1));
    }
}

/// The two digits of a nibble pair parse back to the nibble.
proof fn lemma_hex_digit_val(n: u8)
    requires
        n < 16,
    ensures
        spec_hex_val(spec_hex_digit(n)) == Some(n),
{
}

/// Text round trip: parsing the hex rendering of any byte sequence yields
/// that sequence back.
pub proof fn lemma_hex_round_trip(b: Seq<u8>)
    ensures
        spec_hex_decode(spec_hex_encode(b)) == Some(b),
    decreases b.len(),
{
    if b.len() == 0 {
        assert(spec_hex_encode(b) =~= Seq::<char>::empty());
        assert(spec_hex_decode(spec_hex_encode(b)) == Some(Seq::<u8>::empty()));
        assert(b =~= Seq::<u8>::empty());
    } else {
        let s = spec_hex_encode(b);
        let h = (b[0] / 16) as u8;
        let l = (b[0] % 16) as u8;
        lemma_hex_encode_len(b);
        lemma_hex_digit_val(h);
        lemma_hex_digit_val(l);
        assert(s[0] == spec_hex_digit(h));
        assert(s[1] == spec_hex_digit(l));
        assert(s.skip(2) =~= spec_hex_encode(b.skip(1)));
        lemma_hex_round_trip(b.skip(1));
        lemma_fundamental_div_mod(b[0] as int, 16);
        assert(h * 16 + l == b[0]);
        assert(seq![(h * 16 + l) as u8] + b.skip(1) =~= b);
    }
}

} // verus!
