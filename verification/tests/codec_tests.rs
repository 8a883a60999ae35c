use colcodec::blockwise_linear::{BlockwiseLinearCodec, BlockwiseLinearEstimator};
use colcodec::ownedbytes::OwnedBytes;
use colcodec::raw::{RawCodec, RawCodecEstimator};

fn create_and_validate_raw(data: &[u64], name: &str) -> (f32, f32) {
    let mut estimator = RawCodecEstimator::new();
    for &val in data {
        estimator.collect(val);
    }
    estimator.finalize();
    let estimation = estimator.estimate().unwrap();
    let vals: Vec<u64> = data.to_vec();
    let mut buffer: Vec<u8> = Vec::new();
    estimator.serialize(&vals, &mut buffer);
    let actual_len = buffer.len();
    let reader = match RawCodec::load(OwnedBytes::new(buffer)) {
        Ok(reader) => reader,
        Err(_) => panic!("load failed for {name}"),
    };
    assert_eq!(reader.num_vals() as usize, data.len(), "{name}");
    for (i, &val) in data.iter().enumerate() {
        assert_eq!(reader.get_val(i as u32), val, "row {i} of {name}");
    }
    let denom = 8.0 * data.len() as f32;
    (estimation as f32 / denom, actual_len as f32 / denom)
}

fn create_and_validate_blockwise(data: &[u64], name: &str) -> (f32, f32) {
    let mut estimator = BlockwiseLinearEstimator::new();
    for &val in data {
        estimator.collect(val);
    }
    estimator.finalize();
    let estimation = estimator.estimate().unwrap();
    let vals: Vec<u64> = data.to_vec();
    let mut buffer: Vec<u8> = Vec::new();
    estimator.serialize(&vals, &mut buffer);
    let actual_len = buffer.len();
    let reader = match BlockwiseLinearCodec::load(OwnedBytes::new(buffer)) {
        Ok(reader) => reader,
        Err(_) => panic!("load failed for {name}"),
    };
    assert_eq!(reader.num_vals() as usize, data.len(), "{name}");
    for (i, &val) in data.iter().enumerate() {
        assert_eq!(reader.get_val(i as u32), val, "row {i} of {name}");
    }
    let denom = 8.0 * data.len() as f32;
    (estimation as f32 / denom, actual_len as f32 / denom)
}

fn get_codec_test_datasets() -> Vec<(Vec<u64>, &'static str)> {
    vec![
        (vec![5; 1000], "constant"),
        ((0..1025u64).map(|i| i * 7 + 3).collect(), "affine, two blocks and a tail"),
        ((0..1025u64).map(|i| (i * i) % 1_000_003).collect(), "quadratic residues"),
        (vec![10, 20, 40, 20, 10, 10, 10, 10, 10, 10], "common divisor"),
        ((0..600u64).map(|i| u64::MAX - i * 1000).collect(), "descending near the top"),
        (vec![0; 512], "all zero, exactly one block"),
        (vec![0], "single zero"),
        (vec![u64::MAX], "single max"),
        (vec![0, u64::MAX], "both extremes"),
    ]
}

#[test]
fn blockwise_linear_test_with_codec_data_sets_simple() {
    create_and_validate_blockwise(&[11, 20, 40, 20, 10, 10, 10, 10, 10, 10], "simple test");
}

#[test]
fn test_with_codec_data_sets_simple_gcd() {
    let (_, actual_compression_rate) =
        create_and_validate_blockwise(&[10, 20, 40, 20, 10, 10, 10, 10, 10, 10], "name");
    assert_eq!(actual_compression_rate, 0.475);
}

#[test]
fn blockwise_linear_test_with_codec_data_sets() {
    let data_sets = get_codec_test_datasets();
    for (mut data, name) in data_sets {
        create_and_validate_blockwise(&data, name);
        data.reverse();
        create_and_validate_blockwise(&data, name);
    }
}

#[test]
fn test_blockwise_linear_column_field_rand() {
    for _ in 0..500 {
        let mut data: Vec<u64> = (0..1 + rand::random::<u8>() as usize)
            .map(|_| rand::random::<i64>() as u64 / 2)
            .collect();
        create_and_validate_blockwise(&data, "rand");
        data.reverse();
        create_and_validate_blockwise(&data, "rand");
    }
}

#[test]
fn raw_test_with_codec_data_sets_simple() {
    create_and_validate_raw(&[4, 3, 12], "name");
}

#[test]
fn raw_test_with_codec_data_sets() {
    let data_sets = get_codec_test_datasets();
    for (mut data, name) in data_sets {
        create_and_validate_raw(&data, name);
        data.reverse();
        create_and_validate_raw(&data, name);
    }
}

#[test]
fn test_column_field_rand() {
    for _ in 0..500 {
        let mut data: Vec<u64> = (0..1 + rand::random::<u8>() as usize)
            .map(|_| rand::random::<i64>() as u64 / 2)
            .collect();
        create_and_validate_raw(&data, "rand");
        data.reverse();
        create_and_validate_raw(&data, "rand");
    }
}

#[test]
fn estimate_ordering_matches_actual_for_divisible_column() {
    // A column with a large common divisor must come out smaller under the
    // blockwise-linear codec than under the raw codec, in the estimates as
    // well as in the bytes actually written.
    let data = [10u64, 20, 40, 20, 10, 10, 10, 10, 10, 10];
    let (raw_estimate, raw_actual) = create_and_validate_raw(&data, "raw side");
    let (bw_estimate, bw_actual) = create_and_validate_blockwise(&data, "blockwise side");
    assert!(bw_estimate < raw_estimate);
    assert!(bw_actual < raw_actual);
    let n = 8.0 * data.len() as f32;
    assert!(bw_actual * n < raw_estimate * n);
}

#[test]
fn raw_estimate_is_exact() {
    let data = [4u64, 3, 12, 1, 0, 77];
    let (estimate_rate, actual_rate) = create_and_validate_raw(&data, "exact");
    assert_eq!(estimate_rate, actual_rate);
}

fn encode_blockwise(data: &[u64]) -> Vec<u8> {
    let mut estimator = BlockwiseLinearEstimator::new();
    for &val in data {
        estimator.collect(val);
    }
    estimator.finalize();
    let vals: Vec<u64> = data.to_vec();
    let mut buffer: Vec<u8> = Vec::new();
    estimator.serialize(&vals, &mut buffer);
    buffer
}

#[test]
fn boundary_block_counts() {
    // Exactly 512 rows fill one block; 513 rows need a second block of one
    // row. The footer grows by one three-byte record (a flat line is two
    // variable-width zero bytes plus the width byte).
    let one_block = encode_blockwise(&vec![7u64; 512]);
    let two_blocks = encode_blockwise(&vec![7u64; 513]);
    let footer_len = |buf: &[u8]| -> u32 {
        let n = buf.len();
        u32::from_le_bytes([buf[n - 4], buf[n - 3], buf[n - 2], buf[n - 1]])
    };
    assert_eq!(footer_len(&one_block), 3);
    assert_eq!(footer_len(&two_blocks), 6);
}

#[test]
fn load_rejects_malformed_buffers() {
    // Too short for any header.
    assert!(BlockwiseLinearCodec::load(OwnedBytes::new(vec![1, 2, 3])).is_err());
    let good = encode_blockwise(&[11u64, 20, 40, 20, 10, 10, 10, 10, 10, 10]);
    assert!(BlockwiseLinearCodec::load(OwnedBytes::new(good.clone())).is_ok());
    // Truncated buffer: the trailing footer length no longer fits.
    let mut truncated = good.clone();
    truncated.truncate(good.len() - 5);
    assert!(BlockwiseLinearCodec::load(OwnedBytes::new(truncated)).is_err());
    // A zero divisor in the header is invalid.
    let mut zero_gcd = good.clone();
    for byte in &mut zero_gcd[20..28] {
        *byte = 0;
    }
    assert!(BlockwiseLinearCodec::load(OwnedBytes::new(zero_gcd)).is_err());
    // A footer length pointing outside the buffer is invalid.
    let mut bad_footer = good.clone();
    let n = bad_footer.len();
    bad_footer[n - 4] = 0xff;
    bad_footer[n - 3] = 0xff;
    assert!(BlockwiseLinearCodec::load(OwnedBytes::new(bad_footer)).is_err());
    // Raw: a row count larger than the remaining bytes is invalid.
    let mut raw_bad = vec![0u8; 20];
    raw_bad[0] = 9;
    assert!(RawCodec::load(OwnedBytes::new(raw_bad)).is_err());
}

#[test]
fn reader_reports_header_stats() {
    let data = [10u64, 20, 40, 20, 10, 10, 10, 10, 10, 10];
    let buffer = encode_blockwise(&data);
    let reader = BlockwiseLinearCodec::load(OwnedBytes::new(buffer)).unwrap();
    assert_eq!(reader.min_value(), 10);
    assert_eq!(reader.max_value(), 40);
    assert_eq!(reader.num_vals(), 10);
}

#[test]
fn single_value_column() {
    let data = [42u64];
    let buffer = encode_blockwise(&data);
    let reader = BlockwiseLinearCodec::load(OwnedBytes::new(buffer)).unwrap();
    assert_eq!(reader.num_vals(), 1);
    assert_eq!(reader.get_val(0), 42);
    assert_eq!(reader.min_value(), 42);
    assert_eq!(reader.max_value(), 42);
}

#[test]
fn two_full_blocks_and_a_tail_roundtrip() {
    let data: Vec<u64> = (0..1025u64).map(|i| i.wrapping_mul(2654435761).rotate_left(7)).collect();
    let buffer = encode_blockwise(&data);
    let reader = BlockwiseLinearCodec::load(OwnedBytes::new(buffer)).unwrap();
    assert_eq!(reader.num_vals(), 1025);
    for (i, &v) in data.iter().enumerate() {
        assert_eq!(reader.get_val(i as u32), v);
    }
}
