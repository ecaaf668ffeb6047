use bit_encoding::BitSink;
use bit_encoding::BitSource;
use bit_encoding::BoolSliceBitSource;
use bit_encoding::BoolVecBitSink;
use bit_encoding::DecodeError;
use bit_encoding::DigitDecodingProtocol;
use bit_encoding::DigitIntEncodingProtocol;
use bit_encoding::EncodingProtocol;
use bit_encoding::IntDecodingProtocol;
use bit_encoding::WriteError;
use rand::distributions::Distribution;
use rand::distributions::Standard;
use rand::Rng;

fn test_encoding_pair(encoder: &impl EncodingProtocol, decoder: &impl IntDecodingProtocol) {
    check_u8(encoder, decoder);
    check_i8(encoder, decoder);
    check_u16(encoder, decoder);
    check_i16(encoder, decoder);
    check_u32(encoder, decoder);
    check_i32(encoder, decoder);
    check_u64(encoder, decoder);
    check_i64(encoder, decoder);
    check_u128(encoder, decoder);
    check_i128(encoder, decoder);

    // Combining them...
    let mut sink = BoolVecBitSink::new();
    write_combined(&mut sink, encoder).unwrap();

    let mut source = BoolSliceBitSource::new(sink.get_bits());
    read_combined(&mut source, decoder).unwrap();
}

fn write_combined(
    sink: &mut impl BitSink,
    encoder: &impl EncodingProtocol,
) -> Result<(), WriteError> {
    encoder.write_i128(sink, -123456)?;
    sink.write(&[true, false])?;
    encoder.write_i64(sink, 987654321)?;
    encoder.write_i32(sink, -13579)?;
    encoder.write_i16(sink, 24680)?;
    encoder.write_i8(sink, 123)?;
    sink.write(&[false])?;
    encoder.write_u8(sink, 200)?;
    encoder.write_u16(sink, 23456)?;
    encoder.write_u32(sink, 123456789)?;
    sink.write(&[true])?;
    encoder.write_u64(sink, 0)?;
    encoder.write_u128(sink, 345678901234567)?;
    Ok(())
}

fn read_combined(
    source: &mut impl BitSource,
    decoder: &impl IntDecodingProtocol,
) -> Result<(), DecodeError> {
    assert_eq!(-123456, decoder.read_i128(source)?);
    let mut dest = [false; 2];
    source.read(&mut dest).unwrap();
    assert_eq!(&[true, false], &dest);
    assert_eq!(987654321, decoder.read_i64(source)?);
    assert_eq!(-13579, decoder.read_i32(source)?);
    assert_eq!(24680, decoder.read_i16(source)?);
    assert_eq!(123, decoder.read_i8(source)?);
    let mut dest = [true];
    source.read(&mut dest).unwrap();
    assert!(!dest[0]);
    assert_eq!(200, decoder.read_u8(source)?);
    assert_eq!(23456, decoder.read_u16(source)?);
    assert_eq!(123456789, decoder.read_u32(source)?);
    source.read(&mut dest).unwrap();
    assert!(dest[0]);
    assert_eq!(0, decoder.read_u64(source)?);
    assert_eq!(345678901234567, decoder.read_u128(source)?);
    Ok(())
}

fn check_u8(encoder: &impl EncodingProtocol, decoder: &impl IntDecodingProtocol) {
    let mut sink = BoolVecBitSink::with_capacity(256 * 8);
    for value in 0..=255 {
        encoder.write_u8(&mut sink, value).unwrap();
    }

    let mut source = BoolSliceBitSource::new(sink.get_bits());
    for value in 0..=255 {
        assert_eq!(value, decoder.read_u8(&mut source).unwrap());
    }
}

fn check_i8(encoder: &impl EncodingProtocol, decoder: &impl IntDecodingProtocol) {
    let mut sink = BoolVecBitSink::with_capacity(256 * 8);
    for value in -128..=127 {
        encoder.write_i8(&mut sink, value).unwrap();
    }

    let mut source = BoolSliceBitSource::new(sink.get_bits());
    for value in -128..=127 {
        assert_eq!(value, decoder.read_i8(&mut source).unwrap());
    }
}

fn check_u16(encoder: &impl EncodingProtocol, decoder: &impl IntDecodingProtocol) {
    let mut sink = BoolVecBitSink::with_capacity(65536 * 16);
    for value in 0..=65535 {
        encoder.write_u16(&mut sink, value).unwrap();
    }

    let mut source = BoolSliceBitSource::new(sink.get_bits());
    for value in 0..=65535 {
        assert_eq!(value, decoder.read_u16(&mut source).unwrap());
    }
}

fn check_i16(encoder: &impl EncodingProtocol, decoder: &impl IntDecodingProtocol) {
    let mut sink = BoolVecBitSink::with_capacity(656536 * 16);
    for value in -32768..=32767 {
        encoder.write_i16(&mut sink, value).unwrap();
    }

    let mut source = BoolSliceBitSource::new(sink.get_bits());
    for value in -32768..=32767 {
        assert_eq!(value, decoder.read_i16(&mut source).unwrap());
    }
}

const RANDOM_AMOUNT: usize = 10_000;

fn test_random_symmetry<T: Copy + Eq + std::fmt::Debug>(
    write_method: impl Fn(&mut BoolVecBitSink, T) -> Result<(), WriteError>,
    read_method: impl Fn(&mut BoolSliceBitSource) -> Result<T, DecodeError>,
) where
    Standard: Distribution<T>,
{
    let mut rng = rand::thread_rng();
    let mut values = Vec::with_capacity(RANDOM_AMOUNT);
    for _counter in 0..RANDOM_AMOUNT {
        values.push(rng.gen());
    }

    let mut sink = BoolVecBitSink::new();
    for value in &values {
        write_method(&mut sink, *value).unwrap();
    }

    let mut source = BoolSliceBitSource::new(sink.get_bits());
    for value in &values {
        assert_eq!(*value, read_method(&mut source).unwrap());
    }
}

fn test_given_symmetry<T: Copy + Eq + std::fmt::Debug>(
    values: &[T],
    write_method: impl Fn(&mut BoolVecBitSink, T) -> Result<(), WriteError>,
    read_method: impl Fn(&mut BoolSliceBitSource) -> Result<T, DecodeError>,
) {
    let mut sink = BoolVecBitSink::new();
    for value in values {
        write_method(&mut sink, *value).unwrap();
    }

    let mut source = BoolSliceBitSource::new(sink.get_bits());
    for value in values {
        assert_eq!(*value, read_method(&mut source).unwrap());
    }
}

fn check_u32(encoder: &impl EncodingProtocol, decoder: &impl IntDecodingProtocol) {
    test_given_symmetry(
        &[0, 1, u32::max_value()],
        |sink, value| encoder.write_u32(sink, value),
        |source| decoder.read_u32(source),
    );

    test_random_symmetry(
        |sink, value| encoder.write_u32(sink, value),
        |source| decoder.read_u32(source),
    );
}

fn check_i32(encoder: &impl EncodingProtocol, decoder: &impl IntDecodingProtocol) {
    test_given_symmetry(
        &[0, 1, -1, i32::max_value(), i32::min_value()],
        |sink, value| encoder.write_i32(sink, value),
        |source| decoder.read_i32(source),
    );

    test_random_symmetry(
        |sink, value| encoder.write_i32(sink, value),
        |source| decoder.read_i32(source),
    );
}

fn check_u64(encoder: &impl EncodingProtocol, decoder: &impl IntDecodingProtocol) {
    test_given_symmetry(
        &[0, 1, u64::max_value()],
        |sink, value| encoder.write_u64(sink, value),
        |source| decoder.read_u64(source),
    );

    test_random_symmetry(
        |sink, value| encoder.write_u64(sink, value),
        |source| decoder.read_u64(source),
    );
}

fn check_i64(encoder: &impl EncodingProtocol, decoder: &impl IntDecodingProtocol) {
    test_given_symmetry(
        &[0, 1, -1, i64::max_value(), i64::min_value()],
        |sink, value| encoder.write_i64(sink, value),
        |source| decoder.read_i64(source),
    );

    test_random_symmetry(
        |sink, value| encoder.write_i64(sink, value),
        |source| decoder.read_i64(source),
    );
}

fn check_u128(encoder: &impl EncodingProtocol, decoder: &impl IntDecodingProtocol) {
    test_given_symmetry(
        &[0, 1, u128::max_value()],
        |sink, value| encoder.write_u128(sink, value),
        |source| decoder.read_u128(source),
    );

    test_random_symmetry(
        |sink, value| encoder.write_u128(sink, value),
        |source| decoder.read_u128(source),
    );
}

fn check_i128(encoder: &impl EncodingProtocol, decoder: &impl IntDecodingProtocol) {
    test_given_symmetry(
        &[0, 1, -1, i128::max_value(), i128::min_value()],
        |sink, value| encoder.write_i128(sink, value),
        |source| decoder.read_i128(source),
    );

    test_random_symmetry(
        |sink, value| encoder.write_i128(sink, value),
        |source| decoder.read_i128(source),
    );
}

fn test_result(action: &mut dyn FnMut(&mut BoolVecBitSink) -> Result<(), WriteError>, encoded: &str) {
    for character in encoded.chars() {
        assert!(character == '0' || character == '1' || character == ' ');
    }

    let as_bools: Vec<bool> = encoded
        .chars()
        .filter(|c| *c != ' ')
        .map(|c| c != '0')
        .collect();
    let mut sink = BoolVecBitSink::with_capacity(as_bools.len());

    action(&mut sink).unwrap();

    assert_eq!(as_bools, sink.get_bits());
}

fn test_decode_result<R: Eq + std::fmt::Debug>(
    mut action: impl FnMut(&mut BoolSliceBitSource) -> Result<R, DecodeError>,
    value: R,
    encoded: &str,
) {
    for character in encoded.chars() {
        assert!(character == '0' || character == '1' || character == ' ');
    }

    let as_bools: Vec<bool> = encoded
        .chars()
        .filter(|c| *c != ' ')
        .map(|c| c != '0')
        .collect();

    let mut source = BoolSliceBitSource::new(&as_bools);

    assert_eq!(value, action(&mut source).unwrap());
}

fn test_u8_result(
    encoder: &impl EncodingProtocol,
    decoder: &impl IntDecodingProtocol,
    value: u8,
    encoded: &str,
) {
    test_result(&mut |sink| encoder.write_u8(sink, value), encoded);
    test_decode_result(|source| decoder.read_u8(source), value, encoded);
}

fn test_i8_result(
    encoder: &impl EncodingProtocol,
    decoder: &impl IntDecodingProtocol,
    value: i8,
    encoded: &str,
) {
    test_result(&mut |sink| encoder.write_i8(sink, value), encoded);
    test_decode_result(|source| decoder.read_i8(source), value, encoded);
}

fn test_u16_result(
    encoder: &impl EncodingProtocol,
    decoder: &impl IntDecodingProtocol,
    value: u16,
    encoded: &str,
) {
    test_result(&mut |sink| encoder.write_u16(sink, value), encoded);
    test_decode_result(|source| decoder.read_u16(source), value, encoded);
}

fn test_i16_result(
    encoder: &impl EncodingProtocol,
    decoder: &impl IntDecodingProtocol,
    value: i16,
    encoded: &str,
) {
    test_result(&mut |sink| encoder.write_i16(sink, value), encoded);
    test_decode_result(|source| decoder.read_i16(source), value, encoded);
}

#[test]
fn digit_test_symmetry() {
    test_encoding_pair(
        &DigitIntEncodingProtocol::new(4, true),
        &DigitDecodingProtocol::new(4, true),
    );
    // Test a few other combinations as well
    test_encoding_pair(
        &DigitIntEncodingProtocol::new(2, false),
        &DigitDecodingProtocol::new(2, false),
    );
    test_encoding_pair(
        &DigitIntEncodingProtocol::new(3, true),
        &DigitDecodingProtocol::new(3, true),
    );
    test_encoding_pair(
        &DigitIntEncodingProtocol::new(7, false),
        &DigitDecodingProtocol::new(7, false),
    );
}

#[test]
fn digit_test_u8() {
    let encoder = DigitIntEncodingProtocol::new(4, true);
    let decoder = DigitDecodingProtocol::new(4, true);

    // Test the special cases 0 and 1
    test_u8_result(&encoder, &decoder, 0, "1 0");
    test_u8_result(&encoder, &decoder, 1, "1 1");

    // Test the small numbers
    test_u8_result(&encoder, &decoder, 2, "0 1111");
    test_u8_result(&encoder, &decoder, 3, "0 1000 1111");
    test_u8_result(&encoder, &decoder, 4, "0 0100 1111");
    test_u8_result(&encoder, &decoder, 5, "0 1100 1111");
    test_u8_result(&encoder, &decoder, 6, "0 0010 1111");
    test_u8_result(&encoder, &decoder, 7, "0 1010 1111");

    // Now the numbers that need an extra digit
    test_u8_result(&encoder, &decoder, 16, "0 0111 1111");
    test_u8_result(&encoder, &decoder, 17, "0 0000 1000 1111");
    test_u8_result(&encoder, &decoder, 18, "0 1000 1000 1111");
    test_u8_result(&encoder, &decoder, 19, "0 0100 1000 1111");
    test_u8_result(&encoder, &decoder, 31, "0 0111 1000 1111");
    test_u8_result(&encoder, &decoder, 32, "0 0000 0100 1111");
    test_u8_result(&encoder, &decoder, 226, "0 0111 0111 1111");

    // The biggest numbers
    test_u8_result(&encoder, &decoder, 227, "0 0000 0000 1000");
    test_u8_result(&encoder, &decoder, 228, "0 1000 0000 1000");
    test_u8_result(&encoder, &decoder, 255, "0 1011 1000 1000");
}

#[test]
fn digit_test_i8() {
    let encoder = DigitIntEncodingProtocol::new(4, true);
    let decoder = DigitDecodingProtocol::new(4, true);

    // The first tests are ripped from digit_test_u8
    test_i8_result(&encoder, &decoder, 0, "1 0");
    test_i8_result(&encoder, &decoder, 1, "1 1");

    // Test the small numbers
    test_i8_result(&encoder, &decoder, 2, "00 1111");
    test_i8_result(&encoder, &decoder, 3, "00 1000 1111");
    test_i8_result(&encoder, &decoder, 4, "00 0100 1111");
    test_i8_result(&encoder, &decoder, 5, "00 1100 1111");
    test_i8_result(&encoder, &decoder, 6, "00 0010 1111");
    test_i8_result(&encoder, &decoder, 7, "00 1010 1111");

    // Now the numbers that need an extra digit
    test_i8_result(&encoder, &decoder, 16, "00 0111 1111");
    test_i8_result(&encoder, &decoder, 17, "00 0000 1000");
    test_i8_result(&encoder, &decoder, 18, "00 1000 1000");
    test_i8_result(&encoder, &decoder, 19, "00 0100 1000");
    test_i8_result(&encoder, &decoder, 31, "00 0111 1000");
    test_i8_result(&encoder, &decoder, 32, "00 0000 0100");

    // Lets finally test some negative numbers as well
    test_i8_result(&encoder, &decoder, -1, "01 1111");
    test_i8_result(&encoder, &decoder, -2, "01 1000 1111");
    test_i8_result(&encoder, &decoder, -3, "01 0100 1111");
    test_i8_result(&encoder, &decoder, -4, "01 1100 1111");
    test_i8_result(&encoder, &decoder, -5, "01 0010 1111");
    test_i8_result(&encoder, &decoder, -6, "01 1010 1111");

    // Now the numbers that need an extra digit
    test_i8_result(&encoder, &decoder, -15, "01 0111 1111");
    test_i8_result(&encoder, &decoder, -16, "01 0000 1000");
    test_i8_result(&encoder, &decoder, -17, "01 1000 1000");
    test_i8_result(&encoder, &decoder, -18, "01 0100 1000");
    test_i8_result(&encoder, &decoder, -30, "01 0111 1000");
    test_i8_result(&encoder, &decoder, -31, "01 0000 0100");

    // The biggest values for i8
    test_i8_result(&encoder, &decoder, -128, "01 1110 0001");
    test_i8_result(&encoder, &decoder, 127, "00 1010 0001");
}

// The 16-bit version of the unit tests for u8 and i8
#[test]
fn digit_test_u16() {
    let encoder = DigitIntEncodingProtocol::new(4, true);
    let decoder = DigitDecodingProtocol::new(4, true);

    // Test the special cases 0 and 1
    test_u16_result(&encoder, &decoder, 0, "1 0");
    test_u16_result(&encoder, &decoder, 1, "1 1");

    // Test the small numbers
    test_u16_result(&encoder, &decoder, 2, "0 1111");
    test_u16_result(&encoder, &decoder, 3, "0 1000 1111");
    test_u16_result(&encoder, &decoder, 4, "0 0100 1111");
    test_u16_result(&encoder, &decoder, 5, "0 1100 1111");
    test_u16_result(&encoder, &decoder, 6, "0 0010 1111");
    test_u16_result(&encoder, &decoder, 7, "0 1010 1111");

    // Now the numbers that need an extra digit
    test_u16_result(&encoder, &decoder, 16, "0 0111 1111");
    test_u16_result(&encoder, &decoder, 17, "0 0000 1000 1111");
    test_u16_result(&encoder, &decoder, 18, "0 1000 1000 1111");
    test_u16_result(&encoder, &decoder, 19, "0 0100 1000 1111");
    test_u16_result(&encoder, &decoder, 31, "0 0111 1000 1111");
    test_u16_result(&encoder, &decoder, 32, "0 0000 0100 1111");
    test_u16_result(&encoder, &decoder, 226, "0 0111 0111 1111");

    // The biggest numbers
    test_u16_result(&encoder, &decoder, 227, "0 0000 0000 1000 1111");
    test_u16_result(&encoder, &decoder, 228, "0 1000 0000 1000 1111");
    test_u16_result(&encoder, &decoder, 255, "0 1011 1000 1000 1111");
}

#[test]
fn digit_test_i16() {
    let encoder = DigitIntEncodingProtocol::new(4, true);
    let decoder = DigitDecodingProtocol::new(4, true);

    // The first tests are ripped from digit_test_u8
    test_i16_result(&encoder, &decoder, 0, "1 0");
    test_i16_result(&encoder, &decoder, 1, "1 1");

    // Test the small numbers
    test_i16_result(&encoder, &decoder, 2, "00 1111");
    test_i16_result(&encoder, &decoder, 3, "00 1000 1111");
    test_i16_result(&encoder, &decoder, 4, "00 0100 1111");
    test_i16_result(&encoder, &decoder, 5, "00 1100 1111");
    test_i16_result(&encoder, &decoder, 6, "00 0010 1111");
    test_i16_result(&encoder, &decoder, 7, "00 1010 1111");

    // Now the numbers that need an extra digit
    test_i16_result(&encoder, &decoder, 16, "00 0111 1111");
    test_i16_result(&encoder, &decoder, 17, "00 0000 1000 1111");
    test_i16_result(&encoder, &decoder, 18, "00 1000 1000 1111");
    test_i16_result(&encoder, &decoder, 19, "00 0100 1000 1111");
    test_i16_result(&encoder, &decoder, 31, "00 0111 1000 1111");
    test_i16_result(&encoder, &decoder, 32, "00 0000 0100 1111");

    // Lets finally test some negative numbers as well
    test_i16_result(&encoder, &decoder, -1, "01 1111");
    test_i16_result(&encoder, &decoder, -2, "01 1000 1111");
    test_i16_result(&encoder, &decoder, -3, "01 0100 1111");
    test_i16_result(&encoder, &decoder, -4, "01 1100 1111");
    test_i16_result(&encoder, &decoder, -5, "01 0010 1111");
    test_i16_result(&encoder, &decoder, -6, "01 1010 1111");

    // Now the numbers that need an extra digit
    test_i16_result(&encoder, &decoder, -15, "01 0111 1111");
    test_i16_result(&encoder, &decoder, -16, "01 0000 1000 1111");
    test_i16_result(&encoder, &decoder, -17, "01 1000 1000 1111");
    test_i16_result(&encoder, &decoder, -18, "01 0100 1000 1111");
    test_i16_result(&encoder, &decoder, -30, "01 0111 1000 1111");
    test_i16_result(&encoder, &decoder, -31, "01 0000 0100 1111");

    // The biggest values for i8
    test_i16_result(&encoder, &decoder, -128, "01 1110 0001 1111");
    test_i16_result(&encoder, &decoder, 127, "00 1010 0001 1111");
}

#[test]
fn test_zero_and_one() {
    let regular_encoder = DigitIntEncodingProtocol::new(3, false);
    let regular_decoder = DigitDecodingProtocol::new(3, false);
    let special_encoder = DigitIntEncodingProtocol::new(3, true);
    let special_decoder = DigitDecodingProtocol::new(3, true);

    test_u8_result(&regular_encoder, &regular_decoder, 0, "111");
    test_u8_result(&regular_encoder, &regular_decoder, 1, "100 111");
    test_u8_result(&special_encoder, &special_decoder, 0, "1 0");
    test_u8_result(&special_encoder, &special_decoder, 1, "1 1");
}
