use bit_encoding::bytes_to_bools;
use bit_encoding::BitSink;
use bit_encoding::BoolSliceBitSource;
use bit_encoding::BoolVecBitSink;
use bit_encoding::DigitDecodingProtocol;
use bit_encoding::DigitIntEncodingProtocol;
use bit_encoding::EncodingProtocol;
use bit_encoding::IntDecodingProtocol;
use bit_encoding::U32VecBitSink;
use bit_encoding::U8VecBitSink;
use bit_encoding::VoidBitSink;

#[test]
fn test_bool_vec_bit_sink_new() {
    let mut sink = BoolVecBitSink::new();
    assert_eq!(&[false; 0], sink.get_bits());
    sink.write(&[false, true, false, true, false, true])
        .unwrap();
    assert_eq!(&[false, true, false, true, false, true], sink.get_bits());
}

#[test]
fn test_bool_vec_bit_sink_low_capacity() {
    let mut sink = BoolVecBitSink::with_capacity(2);
    assert_eq!(&[false; 0], sink.get_bits());
    sink.write(&[true, false, true]).unwrap();
    assert_eq!(&[true, false, true], sink.get_bits());
}

#[test]
fn test_bool_vec_bit_sink_high_capacity() {
    let mut sink = BoolVecBitSink::with_capacity(2);
    sink.write(&[true]).unwrap();
    assert_eq!(&[true], sink.get_bits());
}

#[test]
fn test_bool_vec_bit_sink_write() {
    let mut sink = BoolVecBitSink::new();
    sink.write(&[false, false]).unwrap();
    assert_eq!(&[false, false], sink.get_bits());
    sink.write(&[true, false, true]).unwrap();
    assert_eq!(&[false, false, true, false, true], sink.get_bits());
}

#[test]
fn test_bool_vec_bit_sink_bytes() {
    let mut sink = BoolVecBitSink::new();
    assert_eq!(&[0u8; 0], &sink.to_bytes()[..]);
    sink.write(&[false, false, true, true, false, false, true, true, true])
        .unwrap();
    assert_eq!(&[204, 1], &sink.to_bytes()[..]);
}

#[test]
fn u8_vec_digit_test() {
    let encoder = DigitIntEncodingProtocol::v1();
    let mut sink = U8VecBitSink::new();

    // Encode some numbers
    for counter in 0..100 {
        encoder.write_u8(&mut sink, counter).unwrap();
    }

    let as_bools = bytes_to_bools(sink.get_bytes());
    let mut source = BoolSliceBitSource::new(&as_bools);
    let decoder = DigitDecodingProtocol::v1();

    // Decode the same numbers
    for counter in 0..100 {
        assert_eq!(counter, decoder.read_u8(&mut source).unwrap());
    }
}

#[test]
fn u32_vec_digit_test() {
    let encoder = DigitIntEncodingProtocol::v1();
    let mut sink = U32VecBitSink::new();

    // Encode some numbers
    for counter in 0..100 {
        encoder.write_u8(&mut sink, counter).unwrap();
    }

    let as_bools = sink.get_bools();
    let mut source = BoolSliceBitSource::new(&as_bools);
    let decoder = DigitDecodingProtocol::v1();

    // Decode the same numbers
    for counter in 0..100 {
        assert_eq!(counter, decoder.read_u8(&mut source).unwrap());
    }
}

#[test]
fn test_write() {
    let mut void_sink = VoidBitSink::new();
    assert!(void_sink.write(&[true]).is_ok());
}

#[test]
fn test_finish() {
    let mut void_sink = VoidBitSink::new();
    assert!(void_sink.finish().is_ok());
}

#[test]
fn test_u8_vec_bit_sink_bools() {
    let mut sink = U8VecBitSink::new();
    sink.write(&[true, false, true]).unwrap();
    assert_eq!(vec![true, false, true], sink.get_bools());
    assert_eq!(3, sink.get_num_bools());
    sink.write(&[false, false, true, true, false, true, false]).unwrap();
    assert_eq!(
        vec![true, false, true, false, false, true, true, false, true, false],
        sink.get_bools()
    );
    assert_eq!(10, sink.get_num_bools());
    // the partial last byte is padded with false bits
    assert_eq!(&vec![0b01100101u8, 0b01], sink.get_bytes());
}

#[test]
fn test_u32_vec_bit_sink_bools() {
    let mut sink = U32VecBitSink::with_capacity(2);
    let mut expected = Vec::new();
    for i in 0..40 {
        let bit = i % 3 == 0;
        sink.write(&[bit]).unwrap();
        expected.push(bit);
    }
    assert_eq!(expected, sink.get_bools());
    assert_eq!(40, sink.get_num_bools());
    assert_eq!(2, sink.get_ints().len());
    sink.finish().unwrap();
    assert_eq!(expected, sink.get_bools());
}
