//! The encoding of rows.

use std::collections::HashSet;

use sui_kvstore::tables::checkpoints;
use sui_kvstore::tables::checkpoints::encode_key;
use sui_kvstore::tables::tx_seq_digest;
use sui_kvstore::tables::tx_seq_digest::DecodeError;
use sui_kvstore::tables::tx_seq_digest::TransactionDigest;

#[test]
fn encode_key_is_bijective() {
    for cp_seq in [0u64, 1, 2, 42, 1_000_000, u64::MAX - 1, u64::MAX] {
        let k = encode_key(cp_seq);
        assert_eq!(k.len(), 8);
        let round_trip = u64::from_be_bytes(k.as_slice().try_into().unwrap()).reverse_bits();
        assert_eq!(round_trip, cp_seq);
    }
}

#[test]
fn consecutive_inputs_land_on_opposite_halves() {
    // N and N+1 always differ in bit 0, which maps to the top bit of the
    // reversed key — so consecutive checkpoints always land on opposite
    // halves of the keyspace (top bit of first byte flips every step).
    for n in 0u64..1000 {
        let a_top = encode_key(n)[0] & 0x80;
        let b_top = encode_key(n + 1)[0] & 0x80;
        assert_ne!(a_top, b_top, "top bit of {n} and {} should differ", n + 1);
    }
}

#[test]
fn first_byte_covers_full_range_for_1k_inputs() {
    let mut seen = HashSet::new();
    for cp_seq in 0u64..1024 {
        seen.insert(encode_key(cp_seq)[0]);
    }
    // 1024 cp_seqs = 10 low bits varying; reversed, those become the top 10
    // bits of the key. The first byte is 8 of those — so we expect all 256
    // distinct values.
    assert_eq!(seen.len(), 256);
}

#[test]
fn checkpoint_key_is_the_reversed_number() {
    assert_eq!(encode_key(1), vec![0x80, 0, 0, 0, 0, 0, 0, 0]);
    assert_eq!(encode_key(0x0000_0000_0000_0102), vec![0x40, 0x80, 0, 0, 0, 0, 0, 0]);
}

fn row(cells: &[(&'static str, Vec<u8>)]) -> Vec<(Vec<u8>, Vec<u8>)> {
    cells
        .iter()
        .map(|(column, value)| (column.as_bytes().to_vec(), value.clone()))
        .collect()
}

fn parse(bytes: &Vec<u8>) -> Result<String, String> {
    String::from_utf8(bytes.clone()).map_err(|_| "no text".to_string())
}

fn serialize(text: &String) -> Result<Vec<u8>, String> {
    if text.is_empty() {
        Err("empty".to_string())
    } else {
        Ok(text.as_bytes().to_vec())
    }
}

#[test]
fn checkpoint_round_trips() {
    let (summary, signatures, contents) = ("sum".to_string(), "sig".to_string(), "con".to_string());
    let cells = checkpoints::encode(
        &summary,
        &signatures,
        &contents,
        serialize,
        serialize,
        serialize,
    )
    .unwrap();
    assert_eq!(cells[0].0, "s");
    assert_eq!(cells[1].0, "sg");
    assert_eq!(cells[2].0, "c");
    let data = checkpoints::decode(&row(&cells), parse, parse, parse).unwrap();
    assert_eq!(data.summary, Some(summary));
    assert_eq!(data.signatures, Some(signatures));
    assert_eq!(data.contents, Some(contents));
}

#[test]
fn checkpoint_encode_fails_with_the_first_error() {
    let full = "x".to_string();
    let empty = String::new();
    let named = |name: &'static str| {
        move |text: &String| {
            if text.is_empty() {
                Err(name)
            } else {
                Ok(text.as_bytes().to_vec())
            }
        }
    };
    let encode = |a: &String, b: &String, c: &String| {
        checkpoints::encode(a, b, c, named("summary"), named("signatures"), named("contents"))
            .map(|_| ())
    };
    assert_eq!(encode(&full, &full, &full), Ok(()));
    assert_eq!(encode(&empty, &empty, &full), Err("summary"));
    assert_eq!(encode(&full, &empty, &empty), Err("signatures"));
    assert_eq!(encode(&full, &full, &empty), Err("contents"));
}

#[test]
fn checkpoint_decode_takes_the_last_cell_and_skips_other_columns() {
    let cells = [
        ("s", b"old".to_vec()),
        ("other", vec![0xFF]),
        ("s", b"new".to_vec()),
        ("c", b"con".to_vec()),
    ];
    let data = checkpoints::decode(&row(&cells), parse, parse, parse).unwrap();
    assert_eq!(data.summary, Some("new".to_string()));
    assert_eq!(data.contents, Some("con".to_string()));
    assert_eq!(data.signatures, None);
}

#[test]
fn checkpoint_decode_fails_with_the_first_bad_cell() {
    let fail_as = |name: &'static str| move |bytes: &Vec<u8>| -> Result<u8, &'static str> {
        bytes.first().copied().ok_or(name)
    };
    let decode = |cells: &[(&'static str, Vec<u8>)]| {
        checkpoints::decode(&row(cells), fail_as("s"), fail_as("c"), fail_as("sg")).map(|_| ())
    };
    assert_eq!(decode(&[("s", vec![1]), ("c", vec![]), ("sg", vec![])]), Err("c"));
    assert_eq!(decode(&[("sg", vec![]), ("s", vec![])]), Err("sg"));
    assert_eq!(decode(&[("s", vec![]), ("s", vec![1])]), Err("s"));
}

#[test]
fn tx_seq_key_is_big_endian() {
    assert_eq!(
        tx_seq_digest::encode_key(0x0102_0304_0506_0708),
        vec![1, 2, 3, 4, 5, 6, 7, 8]
    );
}

#[test]
fn tx_seq_row_round_trips() {
    let digest = TransactionDigest([0xAB; 32]);
    let cells = tx_seq_digest::encode(&digest, 0x0102, 0x0304);
    assert_eq!(cells[0], ("d", vec![0xAB; 32]));
    assert_eq!(cells[1], ("c", vec![0x02, 0x01, 0, 0, 0, 0, 0, 0]));
    assert_eq!(cells[2], ("e", vec![0x04, 0x03, 0, 0]));
    assert_eq!(
        tx_seq_digest::decode(&row(&cells)),
        Ok((digest, 0x0102, 0x0304))
    );
}

#[test]
fn rows_round_trip_in_any_order_among_other_columns() {
    let digest = TransactionDigest([0xAB; 32]);
    let [d, c, e] = tx_seq_digest::encode(&digest, 7, 9);
    let other = ("x", vec![1, 2, 3]);
    for cells in [
        vec![e.clone(), c.clone(), d.clone()],
        vec![other.clone(), c.clone(), other.clone(), e.clone(), d.clone()],
        vec![d.clone(), e.clone(), c.clone(), other.clone()],
    ] {
        assert_eq!(tx_seq_digest::decode(&row(&cells)), Ok((digest, 7, 9)));
    }

    let [s, sg, c] = checkpoints::encode(
        &"sum".to_string(),
        &"sig".to_string(),
        &"con".to_string(),
        serialize,
        serialize,
        serialize,
    )
    .unwrap();
    for cells in [
        vec![c.clone(), sg.clone(), s.clone()],
        vec![other.clone(), sg.clone(), s.clone(), other.clone(), c.clone()],
    ] {
        let data = checkpoints::decode(&row(&cells), parse, parse, parse).unwrap();
        assert_eq!(data.summary, Some("sum".to_string()));
        assert_eq!(data.signatures, Some("sig".to_string()));
        assert_eq!(data.contents, Some("con".to_string()));
    }
}

#[test]
fn tx_seq_row_without_event_count_has_none() {
    let cells = tx_seq_digest::encode(&TransactionDigest([1; 32]), 7, 9);
    assert_eq!(
        tx_seq_digest::decode(&row(&cells[..2])),
        Ok((TransactionDigest([1; 32]), 7, 0))
    );
}

#[test]
fn tx_seq_row_errors() {
    let good = tx_seq_digest::encode(&TransactionDigest([1; 32]), 7, 9);
    let decode = |cells: &[(&'static str, Vec<u8>)]| tx_seq_digest::decode(&row(cells));
    assert_eq!(decode(&[("d", vec![1; 31])]), Err(DecodeError::DigestLength));
    // What BCS says is kept: too few bytes, and too many.
    assert_eq!(
        decode(&[good[0].clone(), ("c", vec![1; 7])]),
        Err(DecodeError::InvalidCheckpointSeq(bcs::Error::Eof))
    );
    assert_eq!(
        decode(&[good[0].clone(), ("e", vec![1; 5])]),
        Err(DecodeError::InvalidEventCount(bcs::Error::RemainingInput))
    );
    assert_eq!(decode(&[good[1].clone()]), Err(DecodeError::MissingDigest));
    assert_eq!(decode(&[]), Err(DecodeError::MissingDigest));
    assert_eq!(
        decode(&[good[0].clone(), good[2].clone()]),
        Err(DecodeError::MissingCheckpointSeq)
    );
    // The first bad cell decides, and a later good one does not help.
    assert_eq!(
        decode(&[("c", vec![]), ("d", vec![]), good[1].clone(), good[0].clone()]),
        Err(DecodeError::InvalidCheckpointSeq(bcs::Error::Eof))
    );
    // The last of two cells counts.
    let twice = [good[0].clone(), ("c", vec![3, 0, 0, 0, 0, 0, 0, 0]), good[1].clone()];
    assert_eq!(decode(&twice), Ok((TransactionDigest([1; 32]), 7, 0)));
}
