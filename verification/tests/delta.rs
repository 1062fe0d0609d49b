use kelp::delta::{decode, Dictionary};
use kelp::Problem;

#[test]
fn copy_insert_preserves_edits_insertions_deletions_and_binary_bytes() {
    let base = b"prefix repeated region 0123456789 suffix".repeat(100);
    let dictionary = Dictionary::new(&base);
    let mut changed = base.clone();
    changed.splice(50..70, [0, 255, 1, 2]);
    changed.splice(500..500, b"new literal".iter().copied());
    changed.truncate(changed.len() - 27);
    for data in [changed, base.clone(), vec![], vec![255; 3000], b"short".to_vec()] {
        let encoded = dictionary.encode(&data);
        assert_eq!(decode(&base, &encoded, data.len()).unwrap(), data);
    }
    assert!(dictionary.encode(&base).len() < base.len() / 10);
    assert!(decode(&base, &[1, 255, 255, 255, 255, 0, 0, 0, 16], 16).is_err());
    assert!(decode(&base, &[0, 0, 0, 0, 20, 1], 20).is_err());
}

fn problem(base: &[u8], encoded: &[u8], length: usize) -> Problem {
    decode(base, encoded, length).unwrap_err().problem
}

#[test]
fn deltas_are_literals_and_copies() {
    let base = b"0123456789abcdef";
    assert_eq!(decode(base, &[0, 0, 0, 0, 2, 7, 8], 2).unwrap(), vec![7, 8]);
    assert_eq!(decode(base, &[1, 0, 0, 0, 4, 0, 0, 0, 3], 3).unwrap(), b"456".to_vec());
    assert_eq!(Dictionary::new(base).encode(b"xy"), vec![0, 0, 0, 0, 2, b'x', b'y']);
    assert_eq!(Dictionary::new(base).encode(b""), Vec::<u8>::new());
}

#[test]
fn malformed_deltas_are_told_apart() {
    let base = b"0123456789abcdef";
    assert_eq!(problem(base, &[0, 0, 0], 1), Problem::TruncatedDelta);
    assert_eq!(problem(base, &[0, 0, 0, 0, 9, 1], 9), Problem::InvalidDeltaLiteral);
    assert_eq!(problem(base, &[1, 0, 0, 0, 0, 0], 1), Problem::TruncatedDeltaCopy);
    assert_eq!(problem(base, &[1, 0, 0, 0, 0, 0, 0, 0, 9], 8), Problem::DeltaTooLong);
    assert_eq!(problem(base, &[1, 0, 0, 0, 15, 0, 0, 0, 2], 2), Problem::DeltaOutsideBase);
    assert_eq!(problem(base, &[7, 0, 0, 0, 0], 0), Problem::InvalidDeltaOperation);
    assert_eq!(problem(base, &[0, 0, 0, 0, 1, 5], 2), Problem::DeltaLengthMismatch);
}

#[test]
fn a_delta_is_at_most_five_bytes_longer() {
    let base: Vec<u8> = (0..=255u8).cycle().take(4096).collect();
    for bytes in [&b""[..], b"a", &base, &[9; 40], &base[100..150], &[&base[7..23], b"x", &base[64..80]].concat()] {
        let delta = Dictionary::new(&base).encode(bytes);
        assert!(delta.len() <= bytes.len() + 5);
        assert_eq!(decode(&base, &delta, bytes.len()).unwrap(), bytes);
    }
    assert_eq!(Dictionary::new(b"").encode(&[1; 20]).len(), 25);
}
