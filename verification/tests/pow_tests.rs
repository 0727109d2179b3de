use sha2::{Digest, Sha256};
use rpow2_authorized_miner::pow::{parse_hex, trailing_zero_bits, write_nonce_le};

#[test]
fn all_zero_digest_has_256_trailing_zero_bits() {
    assert_eq!(trailing_zero_bits(&[0; 32]), 256);
}

#[test]
fn low_bits_of_last_byte_are_counted() {
    let mut digest = [0xff; 32];
    digest[31] = 0b0001_0000;
    assert_eq!(trailing_zero_bits(&digest), 4);
}

#[test]
fn one_in_last_byte_has_no_trailing_zero_bits() {
    let mut digest = [0xff; 32];
    digest[31] = 0b0000_0001;
    assert_eq!(trailing_zero_bits(&digest), 0);
}

#[test]
fn zero_last_byte_continues_into_previous_byte() {
    let mut digest = [0xff; 32];
    digest[30] = 0b0000_1000;
    digest[31] = 0;
    assert_eq!(trailing_zero_bits(&digest), 11);
}

#[test]
fn nonce_is_little_endian_u64() {
    let mut output = [0; 8];
    write_nonce_le(1, &mut output);
    assert_eq!(output, [1, 0, 0, 0, 0, 0, 0, 0]);
}

#[test]
fn prefix_must_be_even_length_hex() {
    assert!(parse_hex("abc").is_err());
    assert!(parse_hex("xx").is_err());
    assert_eq!(parse_hex("deadBEEF").unwrap(), vec![0xde, 0xad, 0xbe, 0xef]);
}

use rpow2_authorized_miner::pow::{
    HASH_BATCH_SIZE, HexError, PowSolution, SearchOptionsError, SearchWorker, WorkerEvent,
    hex_value, record_solution, validate_search_options,
};

#[test]
fn solutions_hash_to_enough_trailing_zero_bits() {
    let prefix = [0xde, 0xad, 0xbe, 0xef];
    let (nonce, _, _) = run_worker(&prefix, 0, 1, 8);
    assert_eq!(nonce, 382);
    let mut input = prefix.to_vec();
    input.extend_from_slice(&nonce.to_le_bytes());
    let digest = Sha256::digest(&input);
    assert_eq!(
        digest.to_vec(),
        vec![
            0xfe, 0x29, 0x4c, 0xa1, 0xcf, 0x26, 0x15, 0x60, 0x56, 0xf3, 0xb3, 0x61, 0x0a, 0x21,
            0x91, 0xf7, 0x6b, 0xad, 0xf2, 0x43, 0x7d, 0x7e, 0x23, 0x57, 0xff, 0x73, 0x50, 0x61,
            0x19, 0x3a, 0x1b, 0x00
        ]
    );
    assert_eq!(trailing_zero_bits(&digest), 8);
}

#[test]
fn trailing_zero_bits_of_empty_and_mixed_bytes() {
    assert_eq!(trailing_zero_bits(&[]), 0);
    assert_eq!(trailing_zero_bits(&[0x80, 0, 0]), 23);
    assert_eq!(trailing_zero_bits(&[0x01, 0x00]), 8);
}

#[test]
fn nonce_bytes_run_from_least_significant() {
    let mut output = [0xaa; 8];
    write_nonce_le(0x0102_0304_0506_0708, &mut output);
    assert_eq!(output, [8, 7, 6, 5, 4, 3, 2, 1]);
    write_nonce_le(u64::MAX, &mut output);
    assert_eq!(output, [0xff; 8]);
}

#[test]
fn hex_errors_name_the_first_bad_character() {
    assert_eq!(parse_hex("abc"), Err(HexError::OddLength));
    assert_eq!(parse_hex("xx"), Err(HexError::NonHexCharacter(b'x')));
    assert_eq!(parse_hex("0g1z"), Err(HexError::NonHexCharacter(b'g')));
    assert_eq!(parse_hex(""), Ok(vec![]));
    assert_eq!(parse_hex("00fF"), Ok(vec![0x00, 0xff]));
    // "é" is two bytes, so an even length that is not hex.
    assert_eq!(parse_hex("é"), Err(HexError::NonHexCharacter(0xc3)));
    assert_eq!(
        HexError::NonHexCharacter(b'x').message(),
        "hex value contains non-hex character: x"
    );
    assert_eq!(
        HexError::OddLength.message(),
        "hex value must have an even number of characters"
    );
}

#[test]
fn hex_value_reads_both_cases() {
    assert_eq!(hex_value(b'0'), Ok(0));
    assert_eq!(hex_value(b'9'), Ok(9));
    assert_eq!(hex_value(b'a'), Ok(10));
    assert_eq!(hex_value(b'F'), Ok(15));
    assert_eq!(hex_value(b'G'), Err(HexError::NonHexCharacter(b'G')));
}

#[test]
fn search_options_are_checked_in_order() {
    assert_eq!(validate_search_options(8, 0), Err(SearchOptionsError::ZeroThreads));
    assert_eq!(validate_search_options(257, 0), Err(SearchOptionsError::ZeroThreads));
    assert_eq!(validate_search_options(257, 1), Err(SearchOptionsError::DifficultyTooHigh));
    assert_eq!(validate_search_options(256, 1), Ok(()));
    assert_eq!(validate_search_options(0, 8), Ok(()));
    assert_eq!(
        SearchOptionsError::ZeroThreads.message(),
        "--threads must be greater than 0"
    );
}

fn run_worker(prefix: &[u8], start: u64, step: u64, difficulty: u32) -> (u64, u64, u64) {
    let mut worker = SearchWorker::new(prefix, start, step);
    let mut flushed = 0;
    loop {
        match worker.advance(difficulty) {
            WorkerEvent::Solved { nonce, hashes } => return (nonce, hashes, flushed),
            WorkerEvent::Continue { flush } => flushed += flush,
            WorkerEvent::Exhausted { .. } => panic!("nonces used up"),
        }
    }
}

#[test]
fn worker_finds_the_first_solving_nonce_of_its_share() {
    let prefix = [0xde, 0xad, 0xbe, 0xef];
    assert_eq!(run_worker(&prefix, 0, 1, 8), (382, 383, 0));
    assert_eq!(run_worker(&prefix, 1, 3, 8), (382, 128, 0));
    assert_eq!(run_worker(&prefix, 0, 3, 8), (2337, 780, 0));
    // Difficulty 0 is met by the first nonce.
    assert_eq!(run_worker(&prefix, 5, 3, 0), (5, 1, 0));
}

#[test]
fn worker_stops_when_its_nonces_run_out() {
    let mut worker = SearchWorker::new(&[1, 2, 3], u64::MAX - 1, 2);
    assert_eq!(worker.advance(256), WorkerEvent::Exhausted { flush: 1 });
    let mut worker = SearchWorker::new(&[], u64::MAX - 3, 2);
    assert_eq!(worker.advance(256), WorkerEvent::Continue { flush: 0 });
    assert_eq!(worker.pending_hashes(), 1);
    assert_eq!(worker.advance(256), WorkerEvent::Exhausted { flush: 2 });
}

#[test]
fn worker_reports_hashes_in_full_batches() {
    let mut worker = SearchWorker::new(&[7], 0, 1);
    let mut flushed = 0;
    for _ in 0..HASH_BATCH_SIZE {
        match worker.advance(256) {
            WorkerEvent::Continue { flush } => flushed += flush,
            other => panic!("unexpected {other:?}"),
        }
    }
    assert_eq!(flushed, HASH_BATCH_SIZE);
    assert_eq!(worker.pending_hashes(), 0);
}

#[test]
fn first_recorded_solution_is_kept() {
    let mut slot = None;
    record_solution(&mut slot, 7, 100, 5);
    assert_eq!(slot, Some(PowSolution { nonce: 7, hashes: 105 }));
    record_solution(&mut slot, 9, 200, 1);
    assert_eq!(slot, Some(PowSolution { nonce: 7, hashes: 105 }));
}
