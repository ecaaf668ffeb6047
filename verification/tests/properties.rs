use bit_encoding::bools_to_bytes;
use bit_encoding::BitSink;
use bit_encoding::BitSource;
use bit_encoding::BoolSliceBitSource;
use bit_encoding::BoolVecBitSink;
use bit_encoding::DecodeError;
use bit_encoding::DigitDecodingProtocol;
use bit_encoding::DigitIntEncodingProtocol;
use bit_encoding::EncodingProtocol;
use bit_encoding::IntDecodingProtocol;
use bit_encoding::LengthExceeded;
use bit_encoding::ReadError;
use bit_encoding::SimpleEncodingProtocol;
use bit_encoding::SimpleIntDecodingProtocol;
use bit_encoding::U8SliceBitSource;

fn bits_of(encoded: &str) -> Vec<bool> {
    encoded.chars().filter(|c| *c != ' ').map(|c| c != '0').collect()
}

#[test]
fn digit_unsigned_scenario() {
    let encoder = DigitIntEncodingProtocol::new(4, true);

    let cases: [(u8, &str); 4] = [
        (0, "10"),
        (1, "11"),
        (2, "0 1111"),
        (16, "0 0111 1111"),
    ];
    for (value, encoded) in cases {
        let mut sink = BoolVecBitSink::new();
        encoder.write_u8(&mut sink, value).unwrap();
        assert_eq!(bits_of(encoded), sink.get_bits());
    }

    // 17 takes two data digits plus the terminator: 18 bits in total would
    // be wrong, it is 13 bits (1 prefix + 4 + 4 + 4).
    let mut sink = BoolVecBitSink::new();
    encoder.write_u8(&mut sink, 17).unwrap();
    assert_eq!(bits_of("0 0000 1000 1111"), sink.get_bits());
}

#[test]
fn digit_signed_scenario() {
    let encoder = DigitIntEncodingProtocol::new(4, true);

    let mut sink = BoolVecBitSink::new();
    encoder.write_i8(&mut sink, -128).unwrap();
    assert_eq!(bits_of("01 1110 0001"), sink.get_bits());

    let mut sink = BoolVecBitSink::new();
    encoder.write_i8(&mut sink, 127).unwrap();
    // no terminator: the width's maximum digit count is reached
    assert_eq!(bits_of("00 1010 0001"), sink.get_bits());
}

#[test]
fn simple_unsigned_scenario() {
    let encoder = SimpleEncodingProtocol::new();

    let mut sink = BoolVecBitSink::new();
    encoder.write_u8(&mut sink, 5).unwrap();
    assert_eq!(bits_of("1010 0000"), sink.get_bits());

    let mut sink = BoolVecBitSink::new();
    encoder.write_u8(&mut sink, 255).unwrap();
    assert_eq!(bits_of("1111 1111"), sink.get_bits());
}

#[test]
fn simple_signed_scenario() {
    let encoder = SimpleEncodingProtocol::new();

    let mut sink = BoolVecBitSink::new();
    encoder.write_i8(&mut sink, -128).unwrap();
    assert_eq!(bits_of("0000 0001"), sink.get_bits());

    let mut sink = BoolVecBitSink::new();
    encoder.write_i8(&mut sink, -1).unwrap();
    assert_eq!(bits_of("1111 1111"), sink.get_bits());
}

#[test]
fn exhaustion_scenario() {
    // a fixed source of exactly 3 booleans, read 1 and then 3 more
    let bools = [true, false, true];
    let mut source = BoolSliceBitSource::new(&bools);

    let mut first = [false];
    source.read(&mut first).unwrap();
    assert_eq!([true], first);

    let mut rest = [false; 3];
    let error = source.read(&mut rest).unwrap_err();
    assert!(matches!(error, ReadError::ReachedEnd { read_bools: 2 }));
    // the two available booleans were still delivered
    assert_eq!([false, true, false], rest);
}

#[test]
fn exhaustion_reports_exact_count() {
    // a packed source with padding: 13 meaningful bits in 2 bytes
    let bools: Vec<bool> = (0..13).map(|i| i % 3 == 0).collect();
    let bytes = bools_to_bytes(&bools);
    let mut source = U8SliceBitSource::new(&bytes, (8 * bytes.len() - bools.len()) as u8);

    let mut first = [false; 8];
    source.read(&mut first).unwrap();
    let mut rest = [false; 8];
    let error = source.read(&mut rest).unwrap_err();
    assert!(matches!(error, ReadError::ReachedEnd { read_bools: 5 }));

    // once exhausted, every further read fails and delivers nothing
    let mut empty = [true];
    let error = source.read(&mut empty).unwrap_err();
    assert!(matches!(error, ReadError::ReachedEnd { read_bools: 0 }));
    assert_eq!([true], empty);
}

#[test]
fn decode_from_empty_source_fails() {
    let decoder = DigitDecodingProtocol::v1();
    let mut source = BoolSliceBitSource::new(&[]);
    let error = decoder.read_u8(&mut source).unwrap_err();
    assert!(matches!(
        error,
        DecodeError::Reading(ReadError::ReachedEnd { read_bools: 0 })
    ));

    let decoder = SimpleIntDecodingProtocol::new();
    let bools = [true, false, true];
    let mut source = BoolSliceBitSource::new(&bools);
    let error = decoder.read_u8(&mut source).unwrap_err();
    assert!(matches!(
        error,
        DecodeError::Reading(ReadError::ReachedEnd { read_bools: 3 })
    ));
}

#[test]
fn encoding_is_deterministic() {
    let first = DigitIntEncodingProtocol::new(5, true);
    let second = DigitIntEncodingProtocol::new(5, true);
    for value in [0u64, 1, 2, 17, 500, 123_456_789, u64::MAX] {
        let mut sink_a = BoolVecBitSink::new();
        let mut sink_b = BoolVecBitSink::new();
        first.write_u64(&mut sink_a, value).unwrap();
        second.write_u64(&mut sink_b, value).unwrap();
        assert_eq!(sink_a.get_bits(), sink_b.get_bits());
    }
}

#[test]
fn encoded_size_is_bounded() {
    // with a digit size of 4, a u8 needs at most 3 digits, so an encoding
    // never exceeds 1 prefix bit + (3 + 1) * 4 bits
    let encoder = DigitIntEncodingProtocol::new(4, true);
    for value in 0..=255u8 {
        let mut sink = BoolVecBitSink::new();
        encoder.write_u8(&mut sink, value).unwrap();
        assert!(sink.get_num_bools() <= 4 + 3 * 4);
    }
    // and with the short encodings disabled, a digit size of 2 bounds a u16
    // by (max_digits + 1) * 2 where 3^11 > 2^16 gives max_digits = 11
    let encoder = DigitIntEncodingProtocol::new(2, false);
    for value in [0u16, 1, 2, 80, 6561, u16::MAX] {
        let mut sink = BoolVecBitSink::new();
        encoder.write_u16(&mut sink, value).unwrap();
        assert!(sink.get_num_bools() <= (11 + 1) * 2);
    }
}

#[test]
fn round_trip_boundary_values() {
    let encoder = DigitIntEncodingProtocol::new(6, true);
    let decoder = DigitDecodingProtocol::new(6, true);

    let mut sink = BoolVecBitSink::new();
    for value in [0u128, 1, 2, u128::MAX] {
        encoder.write_u128(&mut sink, value).unwrap();
    }
    for value in [0i128, 1, -1, i128::MIN, i128::MAX] {
        encoder.write_i128(&mut sink, value).unwrap();
    }
    sink.finish().unwrap();

    let mut source = BoolSliceBitSource::new(sink.get_bits());
    for value in [0u128, 1, 2, u128::MAX] {
        assert_eq!(value, decoder.read_u128(&mut source).unwrap());
    }
    for value in [0i128, 1, -1, i128::MIN, i128::MAX] {
        assert_eq!(value, decoder.read_i128(&mut source).unwrap());
    }
}

#[test]
fn length_exceeded_carries_both_lengths() {
    let exceeded = LengthExceeded::new(1000, 123_456);
    assert_eq!(1000, exceeded.get_max_length());
    assert_eq!(123_456, exceeded.get_read_length());

    let error = DecodeError::BigVecLength(LengthExceeded::new(16, 600));
    assert!(matches!(error, DecodeError::BigVecLength(_)));
    let error = DecodeError::BigStringLength(LengthExceeded::new(5, 6));
    assert!(matches!(error, DecodeError::BigStringLength(_)));
    let error = DecodeError::VecLengthOverflow { length: u64::MAX };
    assert!(matches!(error, DecodeError::VecLengthOverflow { length: u64::MAX }));
    let error = DecodeError::StringLengthOverflow { length: 70_000 };
    assert!(matches!(error, DecodeError::StringLengthOverflow { length: 70_000 }));
}
