use arithmetic_coding::decoder::{message_complete, ArithmeticDecoder};
use arithmetic_coding::encoder::ArithmeticEncoder;
use arithmetic_coding::error::CodecError;
use arithmetic_coding::models::modeltrait::ModelTrait;
use arithmetic_coding::models::standard::Standard;
use arithmetic_coding::range::Range;

fn table(entries: &[(u8, (u64, u64))], total: u64, length: u64) -> Standard<u8> {
    let mut model = Standard::default();
    for (symbol, interval) in entries {
        model.intervals.insert(*symbol, *interval);
    }
    model.cumulative_frequency = total;
    model.length = length;
    model
}

fn canonical(length: u64) -> Standard<u8> {
    table(&[(1, (0, 2)), (255, (2, 5)), (3, (5, 7)), (4, (7, 8)), (5, (8, 9))], 9, length)
}

fn encode_with(precision: u8, model: Standard<u8>, data: &[u8]) -> Result<Vec<u8>, CodecError> {
    let mut encoder = ArithmeticEncoder::default();
    encoder.range = Range::new(precision);
    encoder.model = Box::new(model);
    encoder.encode(data.to_vec())?;
    Ok(encoder.bitmanipulator.output)
}

fn decode_with(precision: u8, model: Standard<u8>, bytes: &[u8]) -> Result<Vec<u8>, CodecError> {
    let mut decoder = ArithmeticDecoder::default();
    decoder.range = Range::new(precision);
    decoder.model = Box::new(model);
    decoder.bitmanipulator.output = bytes.to_vec();
    decoder.decode()
}

#[test]
fn default_encoder_starts_on_the_whole_range_at_32_bits() {
    let encoder: ArithmeticEncoder<u8> = ArithmeticEncoder::default();
    assert_eq!(encoder.pending, 0);
    assert_eq!(encoder.range.precision, 32);
    assert_eq!((encoder.range.low, encoder.range.high), (0, 1u64 << 32));
    assert!(encoder.bitmanipulator.output.is_empty());
    assert_eq!(encoder.model.message_length(), 0);
}

#[test]
fn default_decoder_starts_on_the_whole_range_at_32_bits() {
    let decoder: ArithmeticDecoder<u8> = ArithmeticDecoder::default();
    assert_eq!(decoder.range.precision, 32);
    assert_eq!((decoder.range.low, decoder.range.high), (0, 1u64 << 32));
    assert!(decoder.bitmanipulator.output.is_empty());
    assert_eq!(decoder.model.message_length(), 0);
}

#[test]
fn write_settles_the_pending_bits_with_the_opposite() {
    let mut encoder: ArithmeticEncoder<u8> = ArithmeticEncoder::default();
    encoder.pending = 3;
    encoder.write(1);
    assert_eq!(encoder.pending, 0);
    encoder.pending = 2;
    encoder.write(0);
    encoder.write(1);
    assert_eq!(encoder.bitmanipulator.output, vec![0b1000_0111]);
    assert_eq!(encoder.pending, 0);
}

#[test]
fn renormalize_settles_zeros_below_the_half_mark() {
    let mut encoder: ArithmeticEncoder<u8> = ArithmeticEncoder::default();
    encoder.range = Range::new(8);
    encoder.range.low = 3;
    encoder.range.high = 20;
    encoder.renormalize();
    assert_eq!((encoder.range.low, encoder.range.high), (24, 160));
    assert_eq!(encoder.pending, 0);
    assert_eq!(encoder.bitmanipulator.buffer_size, 3);
    assert_eq!(encoder.bitmanipulator.buffer, 0);
}

#[test]
fn renormalize_defers_bits_in_the_middle_half() {
    let mut encoder: ArithmeticEncoder<u8> = ArithmeticEncoder::default();
    encoder.range = Range::new(8);
    encoder.range.low = 127;
    encoder.range.high = 129;
    encoder.renormalize();
    assert_eq!(encoder.pending, 6);
    assert_eq!((encoder.range.low, encoder.range.high), (64, 192));
    assert_eq!(encoder.bitmanipulator.buffer_size, 0);
    assert!(encoder.bitmanipulator.output.is_empty());
}

#[test]
fn renormalize_takes_at_most_precision_scalings() {
    for low in 0..255u64 {
        let mut encoder: ArithmeticEncoder<u8> = ArithmeticEncoder::default();
        encoder.range = Range::new(8);
        encoder.range.low = low;
        encoder.range.high = low + 1;
        encoder.renormalize();
        let written = encoder.bitmanipulator.output.len() as u64 * 8
            + encoder.bitmanipulator.buffer_size as u64;
        assert!(written + encoder.pending <= 8);
        assert!(encoder.range.high - encoder.range.low > encoder.range.quarter);
        assert!(encoder.range.high <= 256);
    }
}

#[test]
fn encode_interval_narrows_and_renormalizes() {
    let mut encoder: ArithmeticEncoder<u8> = ArithmeticEncoder::default();
    assert_eq!(encoder.encode_interval(Some((0, 2)), 9), Ok(()));
    assert_eq!((encoder.range.low, encoder.range.high), (0, 954437176 * 4));
    assert_eq!(encoder.bitmanipulator.buffer_size, 2);
    assert_eq!(encoder.bitmanipulator.buffer, 0);
    assert_eq!(encoder.pending, 0);
}

#[test]
fn encode_interval_refuses_a_missing_symbol() {
    let mut encoder: ArithmeticEncoder<u8> = ArithmeticEncoder::default();
    assert_eq!(encoder.encode_interval(None, 9), Err(CodecError::UnknownSymbol));
    assert_eq!((encoder.range.low, encoder.range.high), (0, 1u64 << 32));
    assert_eq!(encoder.bitmanipulator.buffer_size, 0);
}

#[test]
fn encode_interval_refuses_a_total_above_the_quarter_mark() {
    let mut encoder: ArithmeticEncoder<u8> = ArithmeticEncoder::default();
    encoder.range = Range::new(8);
    assert_eq!(encoder.encode_interval(Some((0, 1)), 65), Err(CodecError::TotalFrequencyOverflow));
    assert_eq!(encoder.encode_interval(None, 65), Err(CodecError::TotalFrequencyOverflow));
    assert_eq!(encoder.encode_interval(Some((0, 1)), 64), Ok(()));
}

#[test]
fn encode_interval_refuses_an_interval_that_collapses_the_range() {
    let mut encoder: ArithmeticEncoder<u8> = ArithmeticEncoder::default();
    assert_eq!(encoder.encode_interval(Some((3, 3)), 9), Err(CodecError::RangeCollapse));
    assert_eq!(encoder.encode_interval(Some((5, 2)), 9), Err(CodecError::RangeCollapse));
    assert_eq!(encoder.encode_interval(Some((5, 10)), 9), Err(CodecError::RangeCollapse));
    assert_eq!(encoder.encode_interval(Some((0, 0)), 0), Err(CodecError::RangeCollapse));
    assert_eq!((encoder.range.low, encoder.range.high), (0, 1u64 << 32));
}

#[test]
fn finish_ends_the_message_and_flushes() {
    let mut encoder: ArithmeticEncoder<u8> = ArithmeticEncoder::default();
    encoder.finish();
    assert_eq!(encoder.bitmanipulator.output, vec![0b0100_0000]);
    assert_eq!((encoder.bitmanipulator.buffer, encoder.bitmanipulator.buffer_size), (0, 0));
    let mut above: ArithmeticEncoder<u8> = ArithmeticEncoder::default();
    above.range.low = above.range.quarter + 1;
    above.pending = 2;
    above.finish();
    assert_eq!(above.bitmanipulator.output, vec![0b1000_0000]);
    assert_eq!(above.pending, 0);
    let mut at: ArithmeticEncoder<u8> = ArithmeticEncoder::default();
    at.range.low = at.range.quarter;
    at.pending = 2;
    at.finish();
    assert_eq!(at.bitmanipulator.output, vec![0b0111_0000]);
}

#[test]
fn canonical_message_encodes_to_three_bytes() {
    let data: Vec<u8> = vec![1, 1, 255, 255, 255, 3, 3, 4, 5];
    assert_eq!(encode_with(32, canonical(9), &data), Ok(vec![0x04, 0x65, 0x68]));
}

#[test]
fn canonical_bytes_decode_to_the_message() {
    assert_eq!(
        decode_with(32, canonical(9), &[0x04, 0x65, 0x68]),
        Ok(vec![1, 1, 255, 255, 255, 3, 3, 4, 5])
    );
}

#[test]
fn trailing_bytes_are_ignored() {
    assert_eq!(
        decode_with(32, canonical(9), &[0x04, 0x65, 0x68, 0xff, 0x12]),
        Ok(vec![1, 1, 255, 255, 255, 3, 3, 4, 5])
    );
}

#[test]
fn bitstreams_differ_with_the_precision_and_decode_alike() {
    let data: Vec<u8> = vec![1, 1, 255, 255, 255, 3, 3, 4, 5];
    assert_eq!(encode_with(8, canonical(9), &data), Ok(vec![4, 49, 72]));
    assert_eq!(encode_with(16, canonical(9), &data), Ok(vec![4, 101, 56]));
    assert_eq!(encode_with(62, canonical(9), &data), Ok(vec![4, 101, 104]));
    assert_eq!(decode_with(8, canonical(9), &[4, 49, 72]), Ok(data.clone()));
    assert_eq!(decode_with(16, canonical(9), &[4, 101, 56]), Ok(data.clone()));
    assert_eq!(decode_with(62, canonical(9), &[4, 101, 104]), Ok(data));
}

#[test]
fn single_symbol_message() {
    let model = || table(&[(7, (0, 1))], 1, 1);
    assert_eq!(encode_with(32, model(), &[7]), Ok(vec![64]));
    assert_eq!(decode_with(32, model(), &[64]), Ok(vec![7]));
}

#[test]
fn single_symbol_alphabet_takes_one_byte_for_any_length() {
    let data = vec![9u8; 1000];
    let model = || table(&[(9, (0, 1))], 1, 1000);
    assert_eq!(encode_with(32, model(), &data), Ok(vec![64]));
    assert_eq!(decode_with(32, model(), &[64]), Ok(data));
}

#[test]
fn alternating_symbols() {
    let data: Vec<u8> = vec![10, 20, 10, 20, 10, 20];
    let model = || table(&[(10, (0, 1)), (20, (1, 2))], 2, 6);
    assert_eq!(encode_with(32, model(), &data), Ok(vec![86]));
    assert_eq!(decode_with(32, model(), &[86]), Ok(data));
}

#[test]
fn two_symbols_of_equal_frequency() {
    let data: Vec<u8> = vec![
        20, 10, 20, 10, 10, 10, 20, 10, 10, 10, 10, 20, 20, 10, 10, 10, 20, 10, 10, 10, 10, 20, 10,
        10, 10, 10, 20, 20, 10, 10, 20, 10, 10, 10, 20, 10, 10, 10, 10, 20,
    ];
    let model = || table(&[(10, (0, 1)), (20, (1, 2))], 2, 40);
    assert_eq!(encode_with(32, model(), &data), Ok(vec![162, 24, 132, 50, 33, 128]));
    assert_eq!(decode_with(32, model(), &[162, 24, 132, 50, 33, 128]), Ok(data));
}

#[test]
fn skewed_distribution() {
    let mut data = vec![65u8; 50];
    data.push(66);
    data.extend_from_slice(&[65u8; 49]);
    let model = || table(&[(65, (0, 90)), (66, (90, 100))], 100, 100);
    assert_eq!(encode_with(32, model(), &data), Ok(vec![1, 48, 0]));
    assert_eq!(decode_with(32, model(), &[1, 48, 0]), Ok(data));
}

#[test]
fn long_chain_of_pending_bits() {
    let data: Vec<u8> = vec![1, 1, 1, 0, 2, 1];
    let model = || table(&[(0, (0, 499)), (1, (499, 501)), (2, (501, 1000))], 1000, 6);
    assert_eq!(encode_with(32, model(), &data), Ok(vec![127, 255, 255, 251, 46]));
    assert_eq!(decode_with(32, model(), &[127, 255, 255, 251, 46]), Ok(data));
}

#[test]
fn empty_message_encodes_to_the_ending_alone() {
    assert_eq!(encode_with(32, canonical(0), &[]), Ok(vec![64]));
}

#[test]
fn message_length_zero_decodes_to_nothing_and_reads_nothing() {
    let mut decoder = ArithmeticDecoder::default();
    decoder.model = Box::new(canonical(0));
    decoder.bitmanipulator.output = vec![0x04, 0x65, 0x68];
    assert_eq!(decoder.decode(), Ok(Vec::<u8>::new()));
    assert_eq!(decoder.bitmanipulator.current_bit, 0);
    assert_eq!((decoder.range.low, decoder.range.high), (0, 1u64 << 32));
}

#[test]
fn message_length_zero_decodes_to_nothing_whatever_the_table() {
    let overlapping = table(&[(1, (0, 5)), (2, (3, 9)), (3, (9, 4))], 70000, 0);
    let mut decoder = ArithmeticDecoder::default();
    decoder.range = Range::new(8);
    decoder.model = Box::new(overlapping);
    decoder.bitmanipulator.output = vec![0xff, 0x00, 0xff];
    decoder.bitmanipulator.current_bit = 5;
    assert_eq!(decoder.decode(), Ok(Vec::<u8>::new()));
    assert_eq!(decoder.bitmanipulator.current_bit, 5);
    assert_eq!(decoder.bitmanipulator.output, vec![0xff, 0x00, 0xff]);
    assert_eq!((decoder.range.low, decoder.range.high), (0, 256));
}

#[test]
fn decoder_stops_at_the_message_length() {
    assert_eq!(decode_with(32, canonical(4), &[0x04, 0x65, 0x68]), Ok(vec![1, 1, 255, 255]));
}

#[test]
fn decoder_reads_zeros_past_the_end_of_the_stream() {
    assert_eq!(decode_with(32, canonical(3), &[]), Ok(vec![1, 1, 1]));
    assert_eq!(decode_with(32, canonical(2), &[0xff]), Ok(vec![5, 5]));
}

#[test]
fn unknown_symbol_stops_the_encoder() {
    let mut encoder = ArithmeticEncoder::default();
    encoder.model = Box::new(canonical(3));
    assert_eq!(encoder.encode(vec![1, 2, 3]), Err(CodecError::UnknownSymbol));
    assert_eq!(encoder.bitmanipulator.output, Vec::<u8>::new());
    assert_eq!(encoder.bitmanipulator.buffer_size, 2);
    assert_eq!((encoder.range.low, encoder.range.high), (0, 954437176 * 4));
}

#[test]
fn total_above_the_quarter_mark_stops_the_encoder() {
    let model = table(&[(1, (0, 60)), (2, (60, 65))], 65, 2);
    assert_eq!(encode_with(8, model, &[1, 2]), Err(CodecError::TotalFrequencyOverflow));
    let fits = table(&[(1, (0, 60)), (2, (60, 64))], 64, 2);
    assert!(encode_with(8, fits, &[1, 2]).is_ok());
}

#[test]
fn empty_interval_stops_the_encoder() {
    let model = table(&[(1, (0, 4)), (2, (4, 4)), (3, (4, 9))], 9, 3);
    assert_eq!(encode_with(32, model, &[1, 3, 2]), Err(CodecError::RangeCollapse));
}

#[test]
fn interval_beyond_the_total_stops_the_encoder() {
    let model = table(&[(1, (0, 4)), (2, (4, 12))], 9, 2);
    assert_eq!(encode_with(32, model, &[2]), Err(CodecError::RangeCollapse));
}

#[test]
fn total_above_the_quarter_mark_stops_the_decoder() {
    let model = table(&[(1, (0, 60)), (2, (60, 65))], 65, 2);
    assert_eq!(decode_with(8, model, &[0, 0]), Err(CodecError::TotalFrequencyOverflow));
}

#[test]
fn code_value_outside_every_interval_is_a_malformed_stream() {
    let model = || table(&[(1, (0, 2))], 9, 3);
    assert_eq!(
        decode_with(32, model(), &[255, 255, 255, 255, 255]),
        Err(CodecError::MalformedStream)
    );
    assert_eq!(decode_with(32, model(), &[0, 0, 0, 0, 0]), Ok(vec![1, 1, 1]));
}

#[test]
fn empty_table_is_a_malformed_stream() {
    let model = table(&[], 0, 1);
    assert_eq!(decode_with(32, model, &[1, 2, 3]), Err(CodecError::MalformedStream));
}

#[test]
fn more_symbols_than_the_message_has_is_a_desync() {
    assert_eq!(message_complete(3, 2), Err(CodecError::ModelDesync));
    assert_eq!(message_complete(1, 0), Err(CodecError::ModelDesync));
    assert_eq!(message_complete(2, 2), Ok(true));
    assert_eq!(message_complete(0, 0), Ok(true));
    assert_eq!(message_complete(1, 2), Ok(false));
}

#[test]
fn flipped_bit_gives_another_message_of_the_same_length() {
    let message: Vec<u8> = vec![1, 1, 255, 255, 255, 3, 3, 4, 5];
    assert_eq!(
        decode_with(32, canonical(9), &[0x00, 0x65, 0x68]),
        Ok(vec![1, 1, 1, 1, 3, 255, 255, 255, 5])
    );
    assert_eq!(
        decode_with(32, canonical(9), &[0x04, 0xe5, 0x68]),
        Ok(vec![1, 1, 255, 255, 4, 255, 255, 3, 255])
    );
    assert_eq!(
        decode_with(32, canonical(9), &[0x04, 0x65, 0x60]),
        Ok(vec![1, 1, 255, 255, 255, 3, 3, 4, 4])
    );
    for byte in 0..3 {
        for bit in 0..8 {
            let mut bytes = vec![0x04u8, 0x65, 0x68];
            bytes[byte] ^= 0x80 >> bit;
            match decode_with(32, canonical(9), &bytes) {
                Ok(symbols) => {
                    assert_eq!(symbols.len(), 9);
                    if byte * 8 + bit < 19 {
                        assert_ne!(symbols, message);
                    }
                },
                Err(fault) => assert_eq!(fault, CodecError::MalformedStream),
            }
        }
    }
}

#[test]
fn load_code_reads_precision_bits() {
    let mut decoder: ArithmeticDecoder<u8> = ArithmeticDecoder::default();
    decoder.range = Range::new(16);
    decoder.bitmanipulator.output = vec![0x12, 0x34, 0x56];
    assert_eq!(decoder.load_code(), 0x1234);
    assert_eq!(decoder.bitmanipulator.current_bit, 16);
    assert_eq!(decoder.load_code(), 0x5600);
    assert_eq!(decoder.bitmanipulator.current_bit, 24);
}

#[test]
fn locate_finds_the_symbol_that_holds_the_code_value() {
    let decoder: ArithmeticDecoder<u8> = ArithmeticDecoder::default();
    let model = canonical(9);
    assert_eq!(decoder.locate(&model.intervals, 9, 0), Some((1, 0, 2)));
    assert_eq!(decoder.locate(&model.intervals, 9, 954437175), Some((1, 0, 2)));
    assert_eq!(decoder.locate(&model.intervals, 9, 954437176), Some((255, 2, 5)));
    assert_eq!(decoder.locate(&model.intervals, 9, (1u64 << 32) - 1), Some((5, 8, 9)));
    let gap = table(&[(1, (0, 2)), (2, (7, 7)), (3, (8, 12))], 9, 1);
    assert_eq!(decoder.locate(&gap.intervals, 9, (1u64 << 32) - 1), None);
}

#[test]
fn decoder_renormalize_follows_the_range_with_the_code_value() {
    let mut decoder: ArithmeticDecoder<u8> = ArithmeticDecoder::default();
    decoder.range = Range::new(8);
    decoder.range.low = 127;
    decoder.range.high = 129;
    decoder.bitmanipulator.output = vec![0b1010_0000];
    assert_eq!(decoder.renormalize(128), 168);
    assert_eq!((decoder.range.low, decoder.range.high), (64, 192));
    assert_eq!(decoder.bitmanipulator.current_bit, 6);
}

fn next(state: &mut u64) -> u64 {
    *state = state.wrapping_mul(6364136223846793005).wrapping_add(1442695040888963407);
    *state >> 33
}

#[test]
fn random_messages_round_trip() {
    let mut state: u64 = 0x2545f4914f6cdd1d;
    for _ in 0..1000 {
        let symbols = 1 + next(&mut state) % 16;
        let mut model = Standard::default();
        let mut total: u64 = 0;
        for symbol in 0..symbols {
            let frequency = 1 + next(&mut state) % 64;
            model.intervals.insert(symbol as u8, (total, total + frequency));
            total += frequency;
        }
        assert!(total <= 1024);
        let length = next(&mut state) % 501;
        let data: Vec<u8> = (0..length).map(|_| (next(&mut state) % symbols) as u8).collect();
        model.cumulative_frequency = total;
        model.length = length;
        let mut again = Standard::default();
        again.intervals = model.intervals.clone();
        again.cumulative_frequency = total;
        again.length = length;
        let bytes = encode_with(32, model, &data).unwrap();
        assert_eq!(decode_with(32, again, &bytes), Ok(data));
    }
}

#[test]
fn counted_model_round_trips_at_every_precision() {
    let data: Vec<u8> = b"abracadabra, abracadabra, abracadabra!".to_vec();
    for precision in [8u8, 12, 16, 24, 32, 48, 62] {
        let mut counted = Standard::default();
        counted.init(&data);
        let mut same = Standard::default();
        same.intervals = counted.intervals.clone();
        same.cumulative_frequency = counted.cumulative_frequency;
        same.length = counted.length;
        let bytes = encode_with(precision, counted, &data).unwrap();
        assert_eq!(decode_with(precision, same, &bytes), Ok(data.clone()));
    }
}

#[test]
fn any_stream_decodes_under_a_table_that_parts_its_total() {
    let mut state: u64 = 0x9e3779b97f4a7c15;
    for _ in 0..300 {
        let length = 1 + next(&mut state) % 40;
        let bytes: Vec<u8> = (0..next(&mut state) % 12).map(|_| next(&mut state) as u8).collect();
        for precision in [8u8, 16, 32] {
            let decoded = decode_with(precision, canonical(length), &bytes).unwrap();
            assert_eq!(decoded.len() as u64, length);
        }
    }
}
