use bitcoin_codec::error::BitcoinError;
use bitcoin_codec::input::TransactionInput;
use bitcoin_codec::outpoint::OutPoint;
use bitcoin_codec::script::Script;
use bitcoin_codec::transaction::BitcoinTransaction;
use bitcoin_codec::txid::Txid;
use bitcoin_codec::varint::CompactSize;

#[test]
fn varint_single_byte_boundary() {
    assert_eq!(CompactSize::new(0).to_bytes(), vec![0x00]);
    assert_eq!(CompactSize::new(252).to_bytes(), vec![0xfc]);
}

#[test]
fn varint_two_byte_boundary() {
    assert_eq!(CompactSize::new(253).to_bytes(), vec![0xfd, 0xfd, 0x00]);
    assert_eq!(CompactSize::new(65535).to_bytes(), vec![0xfd, 0xff, 0xff]);
}

#[test]
fn varint_four_byte_boundary() {
    assert_eq!(CompactSize::new(65536).to_bytes(), vec![0xfe, 0x00, 0x00, 0x01, 0x00]);
    assert_eq!(
        CompactSize::new(4294967295).to_bytes(),
        vec![0xfe, 0xff, 0xff, 0xff, 0xff]
    );
}

#[test]
fn varint_eight_byte_boundary() {
    assert_eq!(
        CompactSize::new(4294967296).to_bytes(),
        vec![0xff, 0x00, 0x00, 0x00, 0x00, 0x01, 0x00, 0x00, 0x00]
    );
    assert_eq!(
        CompactSize::new(u64::MAX).to_bytes(),
        vec![0xff, 0xff, 0xff, 0xff, 0xff, 0xff, 0xff, 0xff, 0xff]
    );
}

#[test]
fn varint_round_trip_each_width() {
    for v in [0u64, 1, 252, 253, 65535, 65536, 4294967295, 4294967296, u64::MAX] {
        let enc = CompactSize::new(v).to_bytes();
        let (cs, used) = CompactSize::from_bytes(&enc).unwrap();
        assert_eq!(cs.value, v);
        assert_eq!(used, enc.len());
    }
}

#[test]
fn varint_truncated_prefix_fails() {
    assert_eq!(
        CompactSize::from_bytes(&[0xfd]),
        Err(BitcoinError::InsufficientBytes)
    );
    assert_eq!(
        CompactSize::from_bytes(&[0xfd, 0x01]),
        Err(BitcoinError::InsufficientBytes)
    );
    let (cs, used) = CompactSize::from_bytes(&[0xfd, 0x01, 0x00]).unwrap();
    assert_eq!(cs.value, 1);
    assert_eq!(used, 3);
    assert_eq!(
        CompactSize::from_bytes(&[0xfe, 0x01, 0x02, 0x03]),
        Err(BitcoinError::InsufficientBytes)
    );
    assert_eq!(
        CompactSize::from_bytes(&[0xff, 0, 0, 0, 0, 0, 0, 0]),
        Err(BitcoinError::InsufficientBytes)
    );
}

#[test]
fn varint_non_minimal_encoding_accepted() {
    // A value of 5 carried behind the 9-byte marker still decodes to 5:
    // only truncation is checked, never minimality.
    let (cs, used) = CompactSize::from_bytes(&[0xff, 5, 0, 0, 0, 0, 0, 0, 0]).unwrap();
    assert_eq!(cs.value, 5);
    assert_eq!(used, 9);
}

#[test]
fn varint_decode_ignores_trailing_bytes() {
    let (cs, used) = CompactSize::from_bytes(&[0x2a, 0xde, 0xad]).unwrap();
    assert_eq!(cs.value, 42);
    assert_eq!(used, 1);
}

#[test]
fn empty_input_fails_for_every_component() {
    assert_eq!(
        CompactSize::from_bytes(&[]),
        Err(BitcoinError::InsufficientBytes)
    );
    assert_eq!(OutPoint::from_bytes(&[]), Err(BitcoinError::InsufficientBytes));
    assert_eq!(Script::from_bytes(&[]), Err(BitcoinError::InsufficientBytes));
    assert_eq!(
        TransactionInput::from_bytes(&[]),
        Err(BitcoinError::InsufficientBytes)
    );
    assert_eq!(
        BitcoinTransaction::from_bytes(&[]),
        Err(BitcoinError::InsufficientBytes)
    );
}

#[test]
fn txid_hex_round_trip() {
    let mut raw = [0u8; 32];
    for (i, b) in raw.iter_mut().enumerate() {
        *b = i as u8;
    }
    let txid = Txid(raw);
    let text = txid.to_hex();
    assert_eq!(
        text,
        "000102030405060708090a0b0c0d0e0f101112131415161718191a1b1c1d1e1f"
    );
    let back = Txid::from_hex(&text).unwrap();
    assert_eq!(back, txid);
}

#[test]
fn txid_hex_wrong_length_fails() {
    let text_64 = "00".repeat(32);
    assert!(Txid::from_hex(&text_64).is_ok());
    let text_63 = &text_64[..63];
    assert_eq!(Txid::from_hex(text_63), Err(BitcoinError::InvalidFormat));
    let mut text_65 = text_64.clone();
    text_65.push('0');
    assert_eq!(Txid::from_hex(&text_65), Err(BitcoinError::InvalidFormat));
    // 62 characters are well-formed hex but describe 31 bytes, not 32.
    let text_62 = "ab".repeat(31);
    assert_eq!(Txid::from_hex(&text_62), Err(BitcoinError::InvalidFormat));
}

#[test]
fn txid_hex_invalid_characters_fail() {
    let text = "zz".repeat(32);
    assert_eq!(Txid::from_hex(&text), Err(BitcoinError::InvalidFormat));
}

#[test]
fn txid_hex_uppercase_accepted() {
    let text = "FF".repeat(32);
    let txid = Txid::from_hex(&text).unwrap();
    assert_eq!(txid, Txid([0xff; 32]));
    // Rendering is always lowercase.
    assert_eq!(txid.to_hex(), "ff".repeat(32));
}

#[test]
fn outpoint_round_trip() {
    let op = OutPoint::new([7u8; 32], 0xdead_beef);
    let enc = op.to_bytes();
    assert_eq!(enc.len(), 36);
    assert_eq!(&enc[..32], &[7u8; 32]);
    assert_eq!(&enc[32..], &[0xef, 0xbe, 0xad, 0xde]);
    let (back, used) = OutPoint::from_bytes(&enc).unwrap();
    assert_eq!(back, op);
    assert_eq!(used, 36);
}

#[test]
fn outpoint_truncated_fails() {
    let op = OutPoint::new([7u8; 32], 1);
    let enc = op.to_bytes();
    for cut in 0..36 {
        assert_eq!(
            OutPoint::from_bytes(&enc[..cut]),
            Err(BitcoinError::InsufficientBytes)
        );
    }
}

#[test]
fn script_round_trip() {
    let script = Script::new(vec![0x51, 0x52, 0x53]);
    let enc = script.to_bytes();
    assert_eq!(enc, vec![0x03, 0x51, 0x52, 0x53]);
    let (back, used) = Script::from_bytes(&enc).unwrap();
    assert_eq!(back, script);
    assert_eq!(used, 4);
    assert_eq!(back.as_bytes(), &vec![0x51, 0x52, 0x53]);
}

#[test]
fn script_decode_ignores_trailing_bytes() {
    let (script, used) = Script::from_bytes(&[0x01, 0xaa, 0xbb, 0xcc]).unwrap();
    assert_eq!(script.as_bytes(), &vec![0xaa]);
    assert_eq!(used, 2);
}

#[test]
fn script_payload_shorter_than_prefix_fails() {
    // The prefix announces 5 payload bytes; only 2 follow.
    assert_eq!(
        Script::from_bytes(&[0x05, 0x01, 0x02]),
        Err(BitcoinError::InsufficientBytes)
    );
}

#[test]
fn input_round_trip() {
    let input = TransactionInput::new(
        OutPoint::new([9u8; 32], 3),
        Script::new(vec![0xab, 0xcd]),
        0xffff_fffe,
    );
    let enc = input.to_bytes();
    assert_eq!(enc.len(), 36 + 3 + 4);
    let (back, used) = TransactionInput::from_bytes(&enc).unwrap();
    assert_eq!(back, input);
    assert_eq!(used, enc.len());
}

#[test]
fn input_truncated_fails() {
    let input = TransactionInput::new(
        OutPoint::new([9u8; 32], 3),
        Script::new(vec![0xab, 0xcd]),
        7,
    );
    let enc = input.to_bytes();
    for cut in 0..enc.len() {
        assert_eq!(
            TransactionInput::from_bytes(&enc[..cut]),
            Err(BitcoinError::InsufficientBytes)
        );
    }
}

#[test]
fn transaction_end_to_end_fifty_bytes() {
    let tx = BitcoinTransaction::new(
        1,
        vec![TransactionInput::new(
            OutPoint::new([0u8; 32], 0),
            Script::new(vec![]),
            0xffff_ffff,
        )],
        0,
    );
    let enc = tx.to_bytes();
    // 4 (version) + 1 (count) + 36 (outpoint) + 1 (script len) + 4 (sequence)
    // + 4 (lock time) = 50 bytes.
    assert_eq!(enc.len(), 50);
    let (back, used) = BitcoinTransaction::from_bytes(&enc).unwrap();
    assert_eq!(back, tx);
    assert_eq!(used, 50);
}

#[test]
fn transaction_round_trip_several_inputs() {
    let inputs: Vec<TransactionInput> = (0..5u32)
        .map(|i| {
            TransactionInput::new(
                OutPoint::new([i as u8; 32], i),
                Script::new(vec![i as u8; i as usize]),
                1000 + i,
            )
        })
        .collect();
    let tx = BitcoinTransaction::new(2, inputs, 777);
    let enc = tx.to_bytes();
    let (back, used) = BitcoinTransaction::from_bytes(&enc).unwrap();
    assert_eq!(back, tx);
    assert_eq!(used, enc.len());
}

#[test]
fn transaction_multi_input_count_behind_wide_marker() {
    // 300 inputs force the count prefix into the 0xfd two-byte form.
    let inputs: Vec<TransactionInput> = (0..300u32)
        .map(|i| {
            TransactionInput::new(
                OutPoint::new([(i % 256) as u8; 32], i),
                Script::new(vec![]),
                i,
            )
        })
        .collect();
    let tx = BitcoinTransaction::new(1, inputs, 0);
    let enc = tx.to_bytes();
    assert_eq!(enc[4], 0xfd);
    assert_eq!(enc[5], 0x2c);
    assert_eq!(enc[6], 0x01);
    let (back, used) = BitcoinTransaction::from_bytes(&enc).unwrap();
    assert_eq!(back.inputs.len(), 300);
    assert_eq!(back, tx);
    assert_eq!(used, enc.len());
}

#[test]
fn transaction_exhausted_before_declared_count_fails() {
    // The count claims 300 inputs but the buffer ends after the first one.
    let one_input = TransactionInput::new(OutPoint::new([1u8; 32], 0), Script::new(vec![]), 0);
    let mut bytes = vec![0x01, 0x00, 0x00, 0x00, 0xfd, 0x2c, 0x01];
    bytes.extend(one_input.to_bytes());
    assert_eq!(
        BitcoinTransaction::from_bytes(&bytes),
        Err(BitcoinError::InsufficientBytes)
    );
}

#[test]
fn transaction_truncated_anywhere_fails() {
    let tx = BitcoinTransaction::new(
        1,
        vec![
            TransactionInput::new(OutPoint::new([3u8; 32], 1), Script::new(vec![0xaa]), 2),
            TransactionInput::new(OutPoint::new([4u8; 32], 2), Script::new(vec![]), 3),
        ],
        42,
    );
    let enc = tx.to_bytes();
    for cut in 0..enc.len() {
        assert_eq!(
            BitcoinTransaction::from_bytes(&enc[..cut]),
            Err(BitcoinError::InsufficientBytes)
        );
    }
}

#[test]
fn transaction_missing_lock_time_fails() {
    // Version, a zero input count, and then nothing: the lock time is absent.
    let bytes = [0x01, 0x00, 0x00, 0x00, 0x00];
    assert_eq!(
        BitcoinTransaction::from_bytes(&bytes),
        Err(BitcoinError::InsufficientBytes)
    );
}

#[test]
fn transaction_no_inputs_round_trip() {
    let tx = BitcoinTransaction::new(7, vec![], 9);
    let enc = tx.to_bytes();
    assert_eq!(enc.len(), 9);
    let (back, used) = BitcoinTransaction::from_bytes(&enc).unwrap();
    assert_eq!(back, tx);
    assert_eq!(used, 9);
}
