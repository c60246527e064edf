use tsdb_engine::compression::bits::{BitBuffer, BitReader};
use tsdb_engine::compression::delta::{DeltaOfDeltaDecoder, DeltaOfDeltaEncoder};

fn compress(timestamps: &[i64]) -> Vec<u8> {
    let mut encoder = DeltaOfDeltaEncoder::new();
    for &ts in timestamps {
        encoder.encode(ts);
    }
    encoder.finish()
}

fn restore(data: &[u8], count: usize) -> Vec<i64> {
    let mut decoder = DeltaOfDeltaDecoder::new(data);
    assert!(decoder.can_decode(count));
    decoder.decode_all(count)
}

#[test]
fn round_trip_constant_interval() {
    let timestamps: Vec<i64> = (0..100).map(|i| 1_000_000_000 + i * 1_000_000).collect();
    let mut encoder = DeltaOfDeltaEncoder::new();
    for &ts in &timestamps {
        encoder.encode(ts);
    }
    let data = encoder.finish();
    let mut decoder = DeltaOfDeltaDecoder::new(&data);
    let decoded = decoder.decode_all(timestamps.len());
    assert_eq!(timestamps, decoded);
}

#[test]
fn round_trip_irregular_intervals() {
    let timestamps = vec![100, 160, 200, 400, 405, 500, 700, 710, 1000];
    let mut encoder = DeltaOfDeltaEncoder::new();
    for &ts in &timestamps {
        encoder.encode(ts);
    }
    let data = encoder.finish();
    let mut decoder = DeltaOfDeltaDecoder::new(&data);
    let decoded = decoder.decode_all(timestamps.len());
    assert_eq!(timestamps, decoded);
}

#[test]
fn round_trip_negative_timestamps() {
    let timestamps = vec![-1000, -500, -200, 0, 100, 500];
    let mut encoder = DeltaOfDeltaEncoder::new();
    for &ts in &timestamps {
        encoder.encode(ts);
    }
    let data = encoder.finish();
    let mut decoder = DeltaOfDeltaDecoder::new(&data);
    let decoded = decoder.decode_all(timestamps.len());
    assert_eq!(timestamps, decoded);
}

#[test]
fn compression_ratio_constant_interval() {
    let timestamps: Vec<i64> = (0..1000).map(|i| i * 1_000_000_000).collect();
    let mut encoder = DeltaOfDeltaEncoder::new();
    for &ts in &timestamps {
        encoder.encode(ts);
    }
    let data = encoder.finish();
    let raw_size = timestamps.len() * 8;
    assert!(
        data.len() < raw_size / 4,
        "compressed {} bytes should be much less than raw {} bytes",
        data.len(),
        raw_size
    );
}

#[test]
fn bit_buffer_basic() {
    let mut buf = BitBuffer::new();
    buf.write_bit(true);
    buf.write_bit(false);
    buf.write_bit(true);
    buf.write_bits(0b1010, 4);
    let data = buf.finish();
    let mut reader = BitReader::new(&data);
    assert!(reader.read_bit());
    assert!(!reader.read_bit());
    assert!(reader.read_bit());
    assert_eq!(reader.read_bits(4), 0b1010);
}

#[test]
fn delta_encode_batch_round_trip() {
    let timestamps: Vec<i64> = (0..1000).map(|i| 1_000_000_000 + i * 1_000_000).collect();
    let mut encoder = DeltaOfDeltaEncoder::new();
    encoder.encode_batch(&timestamps);
    let data = encoder.finish();
    let mut decoder = DeltaOfDeltaDecoder::new(&data);
    let decoded = decoder.decode_all(timestamps.len());
    assert_eq!(timestamps, decoded);
}

#[test]
fn encode_batch_irregular_round_trip() {
    let timestamps: Vec<i64> = (0..500).map(|i| i * 1000 + i * i).collect();
    let mut encoder = DeltaOfDeltaEncoder::new();
    encoder.encode_batch(&timestamps);
    let data = encoder.finish();
    let mut decoder = DeltaOfDeltaDecoder::new(&data);
    let decoded = decoder.decode_all(timestamps.len());
    assert_eq!(timestamps, decoded);
}

#[test]
fn delta_encode_batch_matches_sequential() {
    let timestamps: Vec<i64> = (0..200).map(|i| i * 3000 + i * i * 7).collect();

    let mut enc_seq = DeltaOfDeltaEncoder::new();
    for &ts in &timestamps {
        enc_seq.encode(ts);
    }
    let data_seq = enc_seq.finish();

    let mut enc_batch = DeltaOfDeltaEncoder::new();
    enc_batch.encode_batch(&timestamps);
    let data_batch = enc_batch.finish();

    assert_eq!(data_seq, data_batch);
}

#[test]
fn bits_are_packed_most_significant_first() {
    let mut buf = BitBuffer::new();
    buf.write_bits(0b101, 3);
    buf.write_bits(0x1FF, 9);
    assert_eq!(buf.finish(), vec![0b1011_1111, 0b1111_0000]);
    assert_eq!(BitBuffer::new().finish(), Vec::<u8>::new());
}

#[test]
fn signed_bits_are_two_s_complement() {
    let data = [0b1000_0000u8, 0b0111_1111];
    let mut reader = BitReader::new(&data);
    assert_eq!(reader.read_bits_signed(8), -128);
    assert_eq!(reader.read_bits_signed(8), 127);
    assert!(!reader.has_bits(1));
    let largest = [0x7F, 0xFF, 0xFF, 0xFF, 0xFF, 0xFF, 0xFF, 0xFFu8];
    assert_eq!(BitReader::new(&largest).read_bits_signed(64), i64::MAX);
}

#[test]
fn reading_more_than_a_word_keeps_the_last_bits() {
    let mut data = vec![0xFFu8; 2];
    data.extend_from_slice(&[0, 0, 0, 0, 0, 0, 0, 7]);
    assert_eq!(BitReader::new(&data).read_bits(80), 7);
}

#[test]
fn first_two_timestamps_are_stored_whole() {
    assert_eq!(compress(&[]), Vec::<u8>::new());
    assert_eq!(compress(&[-2]), vec![0xFF, 0xFF, 0xFF, 0xFF, 0xFF, 0xFF, 0xFF, 0xFE]);
    assert_eq!(
        compress(&[1, 4]),
        vec![0, 0, 0, 0, 0, 0, 0, 1, 0, 0, 0, 0, 0, 0, 0, 3]
    );
}

#[test]
fn each_range_has_its_prefix() {
    // The third timestamp alone decides what follows the first sixteen bytes.
    let code = |dod: i64| compress(&[0, 0, dod])[16..].to_vec();
    assert_eq!(code(0), vec![0b0000_0000]);
    assert_eq!(code(1), vec![0b1000_0000, 0b1000_0000]);
    assert_eq!(code(-63), vec![0b1010_0000, 0b1000_0000]);
    assert_eq!(code(65), vec![0b1100_0100, 0b0001_0000]);
    assert_eq!(code(-255), vec![0b1101_0000, 0b0001_0000]);
    assert_eq!(code(257), vec![0b1110_0001, 0b0000_0001]);
    assert_eq!(code(-2047), vec![0b1110_1000, 0b0000_0001]);
    assert_eq!(code(2049), vec![0b1111_0000, 0, 0, 0, 0, 0, 0, 0b1000_0000, 0b0001_0000]);
}

#[test]
fn ends_of_each_range_come_back() {
    for dod in [
        63, 64, 65, -62, -63, -64, -65, 255, 256, 257, -255, -256, -257, 2047, 2048, 2049, -2047,
        -2048, -2049,
    ] {
        let data = compress(&[0, 0, dod]);
        assert_eq!(restore(&data, 3), vec![0, 0, dod]);
        let data = compress(&[0, 1, dod + 2, 7]);
        assert_eq!(restore(&data, 4), vec![0, 1, dod + 2, 7]);
    }
}

#[test]
fn highest_of_each_range_keeps_its_code() {
    let code = |dod: i64| compress(&[0, 0, dod])[16..].to_vec();
    assert_eq!(code(64), vec![0b1010_0000, 0b0000_0000]);
    assert_eq!(code(256), vec![0b1101_0000, 0b0000_0000]);
    assert_eq!(code(2048), vec![0b1110_1000, 0b0000_0000]);
}

#[test]
fn differences_wrap_around() {
    let timestamps = vec![i64::MIN, i64::MAX, i64::MIN, 0, i64::MAX, -1];
    assert_eq!(restore(&compress(&timestamps), 6), timestamps);
    let mut encoder = DeltaOfDeltaEncoder::new();
    encoder.encode_batch(&timestamps);
    assert_eq!(encoder.finish(), compress(&timestamps));
}

#[test]
fn constant_interval_costs_one_bit() {
    let timestamps: Vec<i64> = (0..1000).map(|i| 17 + i * 60).collect();
    // 128 bits for the first two timestamps, 998 for the others.
    assert_eq!(compress(&timestamps).len(), (128 + 998 + 7) / 8);
}

#[test]
fn batches_continue_a_stream() {
    let timestamps: Vec<i64> = (0..20).map(|i| i * i * 11).collect();
    let mut encoder = DeltaOfDeltaEncoder::new();
    encoder.encode_batch(&timestamps[..1]);
    encoder.encode_batch(&timestamps[1..5]);
    encoder.encode_batch(&[]);
    encoder.encode_batch(&timestamps[5..]);
    assert_eq!(encoder.finish(), compress(&timestamps));
}

#[test]
fn decoding_can_pause() {
    let timestamps = vec![5, 10, 20, 40, 80];
    let data = compress(&timestamps);
    let mut decoder = DeltaOfDeltaDecoder::new(&data);
    let mut decoded = decoder.decode_all(1);
    decoded.extend(decoder.decode_all(0));
    decoded.extend(decoder.decode_all(4));
    assert_eq!(decoded, timestamps);
}

#[test]
fn running_out_of_bits_is_foreseen() {
    let data = compress(&[5, 10, 20]);
    assert!(DeltaOfDeltaDecoder::new(&data).can_decode(3));
    assert!(!DeltaOfDeltaDecoder::new(&data[..8]).can_decode(2));
    assert!(!DeltaOfDeltaDecoder::new(&data[..16]).can_decode(3));
    assert!(!DeltaOfDeltaDecoder::new(&[]).can_decode(1));
    assert!(DeltaOfDeltaDecoder::new(&[]).can_decode(0));
}
