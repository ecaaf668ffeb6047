use bit_encoding::bools_to_bytes;
use bit_encoding::BitSource;
use bit_encoding::BoolSliceBitSource;
use bit_encoding::U8SliceBitSource;
use rand::Rng;

fn test_slice<S: BitSource>(slice: &[bool], source_generator: &impl Fn(&[bool]) -> S) {
    let mut source = source_generator(slice);

    // Test reading 1 by 1
    for index in 0..slice.len() {
        let mut target = [false];
        source.read(&mut target).unwrap();
        assert_eq!(slice[index], target[0]);
    }
    source.read(&mut [false]).unwrap_err();

    let mut source = source_generator(slice);

    // Test reading in groups of 3
    for index in 0..slice.len() / 3 {
        let mut target = [false; 3];
        source.read(&mut target).unwrap();
        assert_eq!(&slice[3 * index..3 * (index + 1)], &target);
    }
    source.read(&mut [false; 3]).unwrap_err();

    let mut source = source_generator(slice);

    // Test reading all bools at once
    let mut target = vec![false; slice.len()];
    source.read(&mut target).unwrap();
    assert_eq!(slice, target.as_slice());
    source.read(&mut [false]).unwrap_err();
}

fn run_basic_tests<S: BitSource>(source_generator: &impl Fn(&[bool]) -> S) {
    test_slice(&[false], source_generator);
    test_slice(&[true], source_generator);
    test_slice(&[true, true, false], source_generator);
    test_slice(&[false, true, false, true], source_generator);
    test_slice(
        &[true, true, false, false, true, false, false, true],
        source_generator,
    );
    test_slice(
        &[true, true, false, false, true, false, false, true, true],
        source_generator,
    );
}

fn run_random_tests<S: BitSource>(source_generator: &impl Fn(&[bool]) -> S) {
    let mut rng = rand::thread_rng();
    for _counter in 0..100 {
        let random_length_part: u8 = rng.gen();
        let length = 1 + random_length_part as usize;
        let mut bools = vec![false; length];
        for index in 0..length {
            bools[index] = rng.gen();
        }
        test_slice(&bools, source_generator);
    }
}

fn leaked_bool_slice_source(slice: &[bool]) -> BoolSliceBitSource<'static> {
    let mut as_vec = vec![false; slice.len()];
    as_vec.copy_from_slice(slice);

    // Not so neat, but it's only a unit test anyway
    let leaked_vec = Box::leak(Box::new(as_vec));
    BoolSliceBitSource::new(leaked_vec)
}

fn leaked_u8_slice_source(slice: &[bool]) -> U8SliceBitSource<'static> {
    let bytes = bools_to_bytes(slice);

    // Not such a nice solution, but this is just for unit testing anyway
    let byte_slice = Box::leak(Box::new(bytes));
    U8SliceBitSource::new(byte_slice, (8 * byte_slice.len() - slice.len()) as u8)
}

#[test]
fn bool_slice_basic_tests() {
    run_basic_tests(&leaked_bool_slice_source);
}

#[test]
fn bool_slice_random_tests() {
    run_random_tests(&leaked_bool_slice_source);
}

#[test]
fn u8_slice_basic_tests() {
    run_basic_tests(&leaked_u8_slice_source);
}

#[test]
fn u8_slice_random_tests() {
    run_random_tests(&leaked_u8_slice_source);
}
