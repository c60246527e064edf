use tsdb_engine::compression::xor_float::{XorFloatDecoder, XorFloatEncoder};

fn compress(values: &[f64]) -> Vec<u8> {
    let mut encoder = XorFloatEncoder::new();
    for &v in values {
        encoder.encode(v.to_bits());
    }
    encoder.finish()
}

fn restore(data: &[u8], count: usize) -> Vec<f64> {
    let mut decoder = XorFloatDecoder::new(data);
    assert!(decoder.can_decode(count));
    decoder.decode_all(count).into_iter().map(f64::from_bits).collect()
}

fn patterns(values: &[f64]) -> Vec<u64> {
    values.iter().map(|v| v.to_bits()).collect()
}

#[test]
fn round_trip_constant_values() {
    let values: Vec<f64> = vec![25.0; 100];
    let data = compress(&values);
    assert_eq!(values, restore(&data, values.len()));
}

#[test]
fn round_trip_slowly_changing() {
    let values: Vec<f64> = (0..100).map(|i| 25.0 + i as f64 * 0.01).collect();
    let data = compress(&values);
    assert_eq!(values, restore(&data, values.len()));
}

#[test]
fn round_trip_special_values() {
    let values = vec![0.0, -0.0, f64::INFINITY, f64::NEG_INFINITY, 1.0, -1.0];
    let data = compress(&values);
    let decoded = restore(&data, values.len());
    for (original, decoded_val) in values.iter().zip(decoded.iter()) {
        assert_eq!(original.to_bits(), decoded_val.to_bits());
    }
}

#[test]
fn compression_ratio_constant() {
    let values: Vec<f64> = vec![42.0; 1000];
    let data = compress(&values);
    let raw_size = values.len() * 8;
    assert!(
        data.len() < raw_size / 10,
        "constant values should compress extremely well: {} vs {}",
        data.len(),
        raw_size
    );
}

#[test]
fn xor_float_encode_batch_round_trip() {
    let values: Vec<f64> = (0..1000).map(|i| 25.0 + (i as f64 * 0.001).sin() * 5.0).collect();
    let mut encoder = XorFloatEncoder::new();
    encoder.encode_batch(&patterns(&values));
    let data = encoder.finish();
    let decoded = restore(&data, values.len());
    for (orig, dec) in values.iter().zip(decoded.iter()) {
        assert_eq!(orig.to_bits(), dec.to_bits());
    }
}

#[test]
fn xor_float_encode_batch_matches_sequential() {
    let values: Vec<f64> = (0..200).map(|i| 100.0 + i as f64 * 0.5).collect();

    let mut enc_seq = XorFloatEncoder::new();
    for &v in &values {
        enc_seq.encode(v.to_bits());
    }
    let data_seq = enc_seq.finish();

    let mut enc_batch = XorFloatEncoder::new();
    enc_batch.encode_batch(&patterns(&values));
    let data_batch = enc_batch.finish();

    assert_eq!(data_seq, data_batch);
}

#[test]
fn not_a_number_comes_back_bit_by_bit() {
    let odd = f64::from_bits(0x7FF8_0000_DEAD_BEEF);
    let data = compress(&[1.5, odd, f64::NAN]);
    let decoded = restore(&data, 3);
    assert_eq!(decoded[1].to_bits(), 0x7FF8_0000_DEAD_BEEF);
    assert_eq!(decoded[2].to_bits(), f64::NAN.to_bits());
}

#[test]
fn codes_of_known_values() {
    let mut encoder = XorFloatEncoder::new();
    encoder.encode(1);
    assert_eq!(encoder.finish(), vec![0, 0, 0, 0, 0, 0, 0, 1]);

    // A repeated value is one unset bit; another one is `11`, thirty-one leading zeros,
    // thirty-three meaningful bits, and these.
    let mut encoder = XorFloatEncoder::new();
    encoder.encode_batch(&[1, 1, 2]);
    assert_eq!(encoder.finish(), vec![0, 0, 0, 0, 0, 0, 0, 1, 127, 132, 0, 0, 0, 6]);
}

#[test]
fn window_is_used_again() {
    let a = 0b1000_0001u64 << 51;
    let b = a ^ (0b0000_0011u64 << 51);
    let mut encoder = XorFloatEncoder::new();
    encoder.encode_batch(&[0, a, b]);
    assert_eq!(
        encoder.finish(),
        vec![0, 0, 0, 0, 0, 0, 0, 0, 0b1100_1010, 0b0100_0100, 0b0000_1100, 0b0000_0110]
    );
}

#[test]
fn small_and_large_differences_come_back() {
    let mut values: Vec<u64> = vec![1.0f64.to_bits()];
    for shift in 0..64 {
        for width in [0u64, 1, 0b101, u64::MAX] {
            values.push(values[values.len() - 1] ^ (width << shift));
            values.push(values[values.len() - 1] ^ (width >> shift));
        }
    }
    let mut encoder = XorFloatEncoder::new();
    encoder.encode_batch(&values);
    let data = encoder.finish();
    let mut decoder = XorFloatDecoder::new(&data);
    assert!(decoder.can_decode(values.len()));
    assert_eq!(decoder.decode_all(values.len()), values);
}

#[test]
fn whole_word_is_stored_as_no_bits() {
    let mut encoder = XorFloatEncoder::new();
    encoder.encode_batch(&[0, u64::MAX]);
    let data = encoder.finish();
    let mut expected = vec![0u8; 8];
    expected.extend_from_slice(&[0b1100_0000, 0b0000_0111]);
    expected.extend_from_slice(&[0xFF; 7]);
    expected.push(0b1111_1000);
    assert_eq!(data, expected);
    let mut decoder = XorFloatDecoder::new(&data);
    assert!(decoder.can_decode(2));
    assert_eq!(decoder.decode_all(2), vec![0, u64::MAX]);
}

#[test]
fn bits_without_a_stored_window_are_a_whole_word() {
    // First value zero; then `10` and sixty-four bits, the last of them set.
    let mut data = vec![0u8; 8];
    data.extend_from_slice(&[0b1000_0000, 0, 0, 0, 0, 0, 0, 0, 0b0100_0000]);
    let mut decoder = XorFloatDecoder::new(&data);
    assert!(decoder.can_decode(2));
    assert_eq!(decoder.decode_all(2), vec![0, 1]);
}

#[test]
fn repeated_value_costs_one_bit() {
    let values = vec![42.0; 1000];
    // 64 bits for the first value, 999 for the others.
    assert_eq!(compress(&values).len(), (64 + 999 + 7) / 8);
}

#[test]
fn stored_windows_are_followed() {
    // First value zero; then `11`, five leading zeros, eight meaningful bits `1000_0001`;
    // then `10` and eight bits `0000_0011` inside the same window.
    let data = [
        0,
        0,
        0,
        0,
        0,
        0,
        0,
        0,
        0b1100_1010,
        0b0100_0100,
        0b0000_1100,
        0b0000_0110,
    ];
    let mut decoder = XorFloatDecoder::new(&data);
    assert!(decoder.can_decode(3));
    let first = 0b1000_0001u64 << 51;
    let second = first ^ (0b0000_0011u64 << 51);
    assert_eq!(decoder.decode_all(3), vec![0, first, second]);
}

#[test]
fn windows_wider_than_a_word_are_foreseen() {
    // `11`, thirty-one leading zeros, sixty-three meaningful bits.
    let mut data = vec![0u8; 8];
    data.extend_from_slice(&[0xFF; 16]);
    assert!(XorFloatDecoder::new(&data).can_decode(1));
    assert!(!XorFloatDecoder::new(&data).can_decode(2));
    // `11`, no leading zeros, and too few bits for a whole word.
    let mut data = vec![0u8; 8];
    data.extend_from_slice(&[0b1100_0000, 0, 0]);
    assert!(!XorFloatDecoder::new(&data).can_decode(2));
}

#[test]
fn running_out_of_bits_is_foreseen_for_values() {
    let data = compress(&[1.0, 2.0]);
    assert!(XorFloatDecoder::new(&data).can_decode(2));
    assert!(!XorFloatDecoder::new(&data[..data.len() - 1]).can_decode(2));
    assert!(!XorFloatDecoder::new(&[]).can_decode(1));
}

#[test]
fn value_batches_continue_a_stream() {
    let values: Vec<f64> = (0..20).map(|i| i as f64 / 3.0).collect();
    let mut encoder = XorFloatEncoder::new();
    encoder.encode_batch(&patterns(&values[..1]));
    encoder.encode_batch(&[]);
    encoder.encode_batch(&patterns(&values[1..]));
    assert_eq!(encoder.finish(), compress(&values));
}

#[test]
fn single_values_append_what_a_batch_appends() {
    let values: Vec<u64> = vec![7, 7, 1 << 40, 3, u64::MAX, 3];
    for split in 1..values.len() {
        let mut encoder = XorFloatEncoder::new();
        encoder.encode_batch(&values[..split]);
        for &v in &values[split..] {
            encoder.encode(v);
        }
        let mut whole = XorFloatEncoder::new();
        whole.encode_batch(&values);
        assert_eq!(encoder.finish(), whole.finish());
    }
}

#[test]
fn exclusive_or_stands_for_the_value() {
    let values: Vec<u64> = vec![3, 3, 1 << 50, 7, u64::MAX, 0];
    for n in 1..values.len() {
        let mut by_value = XorFloatEncoder::new();
        let mut by_xor = XorFloatEncoder::new();
        for &v in &values[..n] {
            by_value.encode(v);
            by_xor.encode(v);
        }
        by_value.encode(values[n]);
        by_xor.encode_xor(values[n - 1] ^ values[n]);
        by_value.encode(5);
        by_xor.encode(5);
        assert_eq!(by_value.finish(), by_xor.finish());
    }
}
