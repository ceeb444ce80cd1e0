use ezmempass::codec::{CodecError, DeltaDecoder, DeltaEncoder};
use std::collections::BTreeSet;

fn execute_encode_decode_test(input: &Vec<u32>) {
    let encoder = DeltaEncoder::new(input);
    let encoded = encoder.encode().unwrap();
    let decoder = DeltaDecoder::new(&encoded);
    let decoded = decoder.decode();
    assert_eq!(&decoded, input);
}

#[test]
fn empty_list() {
    execute_encode_decode_test(&Vec::new());
}

#[test]
fn single_one() {
    execute_encode_decode_test(&vec![1]);
}

#[test]
fn single_run() {
    execute_encode_decode_test(&vec![1, 2, 3, 4, 5]);
}

#[test]
fn start_run_end_run() {
    execute_encode_decode_test(&vec![1, 2, 3, 4, 5, 8, 11, 12, 13, 14, 15]);
}

#[test]
fn no_runs() {
    execute_encode_decode_test(&vec![5, 10, 15, 20]);
}

#[test]
fn big_jump() {
    execute_encode_decode_test(&vec![1, 100_000, 1_000_000, 10_000_001]);
}

#[test]
fn large_single_run_01() {
    let mut xs: Vec<u32> = Vec::with_capacity(33);
    for i in 1..33 {
        xs.push(i);
    }
    execute_encode_decode_test(&xs);
}

#[test]
fn large_single_run_02() {
    let mut xs: Vec<u32> = Vec::with_capacity(35);
    for i in 1..35 {
        xs.push(i);
    }
    execute_encode_decode_test(&xs);
}

#[test]
fn two_large_runs() {
    let mut xs: Vec<u32> = Vec::with_capacity(200);
    for i in 1..100 {
        xs.push(i);
    }
    for i in 101..200 {
        xs.push(i);
    }
    execute_encode_decode_test(&xs);
}

#[test]
fn one_million_integer_run() {
    let mut xs: Vec<u32> = Vec::with_capacity(1_000_000);
    for i in 1..1_000_000 {
        xs.push(i);
    }
    execute_encode_decode_test(&xs);
}

#[test]
fn it_works() {
    execute_encode_decode_test(&vec![1, 2, 3, 5, 8, 13]);
}

#[test]
fn one_million_random_integers() {
    let xs = get_random_vector(
        1_000_000,  /*minimum_vector_length*/
        1_000_001,  /*maximum_vector_length*/
        1,          /*minimum_value */
        10_000_000, /*maximum_value*/
    );
    execute_encode_decode_test(&xs);
}

/// Intentially do not use a fixed seed. That way each time this test runs more of the
/// space of inputs is explored.
#[test]
fn random_tests() {
    const NUMBER_OF_RUNS: u32 = 1000;
    const MINIMUM_VECTOR_LENGTH: u32 = 0;
    const MAXIMUM_VECTOR_LENGTH: u32 = 1000;
    const MINIMUM_VALUE: u32 = 1;
    const MAXIMUM_VALUE: u32 = 10_000_000;
    for _ in 0..NUMBER_OF_RUNS {
        let input = get_random_vector(
            MINIMUM_VECTOR_LENGTH,
            MAXIMUM_VECTOR_LENGTH,
            MINIMUM_VALUE,
            MAXIMUM_VALUE,
        );
        execute_encode_decode_test(&input);
    }
}

fn get_random_vector(
    minimum_vector_length: u32,
    maximum_vector_length: u32,
    minimum_value: u32,
    maximum_value: u32,
) -> Vec<u32> {
    let length: usize = rand::random_range(minimum_vector_length..maximum_vector_length) as usize;
    let mut values_to_use: BTreeSet<u32> = BTreeSet::new();
    while values_to_use.len() < length {
        values_to_use.insert(rand::random_range(minimum_value..maximum_value));
    }
    let mut result: Vec<u32> = Vec::with_capacity(length);
    for i in values_to_use.iter() {
        result.push(*i);
    }
    result
}

#[test]
fn encode_rejects_zero() {
    let input = vec![0];
    let r = DeltaEncoder::new(&input).encode();
    assert_eq!(r.unwrap_err(), CodecError::ZeroValue);
}

#[test]
fn encode_rejects_zero_later() {
    let input = vec![1, 2, 0, 4];
    let r = DeltaEncoder::new(&input).encode();
    assert_eq!(r.unwrap_err(), CodecError::ZeroValue);
}

#[test]
fn encode_rejects_out_of_order() {
    let input = vec![5, 4, 3, 2, 1];
    let r = DeltaEncoder::new(&input).encode();
    assert_eq!(r.unwrap_err(), CodecError::NotIncreasing);
}

#[test]
fn encode_rejects_duplicates() {
    let input = vec![1, 2, 3, 4, 5, 5];
    let r = DeltaEncoder::new(&input).encode();
    assert_eq!(r.unwrap_err(), CodecError::NotIncreasing);
}

#[test]
fn encode_exact_bytes_for_runs_and_gaps() {
    // a run of three consecutive values becomes one run-length byte
    let input = vec![1, 2, 3];
    assert_eq!(DeltaEncoder::new(&input).encode().unwrap(), vec![0x83]);
    // a single value with a gap becomes one terminal gap byte
    let input = vec![5];
    assert_eq!(DeltaEncoder::new(&input).encode().unwrap(), vec![0x24]);
    // a pending run is flushed before a multi-byte gap token
    let input = vec![1, 100];
    assert_eq!(
        DeltaEncoder::new(&input).encode().unwrap(),
        vec![0x81, 0x42, 0x23]
    );
}

#[test]
fn decode_empty_stream() {
    let bytes: Vec<u8> = Vec::new();
    assert_eq!(DeltaDecoder::new(&bytes).decode(), Vec::<u32>::new());
}
