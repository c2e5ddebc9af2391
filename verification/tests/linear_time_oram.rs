use oram::linear_time_oram::LinearTimeOram;
use oram::{BlockValue, OramError};

type B = BlockValue<4>;

fn bv(x: u8) -> B {
    BlockValue::new([x; 4])
}

#[test]
fn new_oram_holds_default_blocks() {
    let mut oram = LinearTimeOram::<B>::new(8).unwrap();
    assert_eq!(oram.block_capacity().unwrap(), 8);
    assert_eq!(oram.physical_memory.len(), 8);
    for i in 0..8 {
        assert_eq!(oram.read(i).unwrap(), bv(0));
    }
}

#[test]
fn read_after_write_returns_written_value() {
    let mut oram = LinearTimeOram::<B>::new(8).unwrap();
    assert_eq!(oram.write(3, bv(7)).unwrap(), bv(0));
    assert_eq!(oram.write(5, bv(9)).unwrap(), bv(0));
    assert_eq!(oram.read(3).unwrap(), bv(7));
    assert_eq!(oram.read(5).unwrap(), bv(9));
    assert_eq!(oram.read(4).unwrap(), bv(0));
    // A second write returns the first value.
    assert_eq!(oram.write(3, bv(1)).unwrap(), bv(7));
    assert_eq!(oram.read(3).unwrap(), bv(1));
}

#[test]
fn access_applies_callback_only_at_index() {
    let mut oram = LinearTimeOram::<B>::new(4).unwrap();
    oram.write(2, bv(10)).unwrap();
    let old = oram
        .access(2, |x: &B| BlockValue::new([x.data[0] + 1; 4]))
        .unwrap();
    assert_eq!(old, bv(10));
    assert_eq!(oram.physical_memory, vec![bv(0), bv(0), bv(11), bv(0)]);
}

#[test]
fn out_of_bounds_access_is_refused() {
    let mut oram = LinearTimeOram::<B>::new(8).unwrap();
    match oram.read(8) {
        Err(OramError::AddressOutOfBoundsError { attempted, capacity }) => {
            assert_eq!(attempted, 8);
            assert_eq!(capacity, 8);
        }
        other => panic!("unexpected result {:?}", other),
    }
    match oram.write(100, bv(1)) {
        Err(OramError::AddressOutOfBoundsError { attempted, capacity }) => {
            assert_eq!(attempted, 100);
            assert_eq!(capacity, 8);
        }
        other => panic!("unexpected result {:?}", other),
    }
    assert!(oram.physical_memory.iter().all(|b| *b == bv(0)));
}

#[test]
fn batch_write_then_batch_read() {
    let mut oram = LinearTimeOram::<B>::new(8).unwrap();
    let old = oram
        .write_with_batch(vec![1, 4, 6], vec![bv(1), bv(4), bv(6)])
        .unwrap();
    assert_eq!(old, vec![bv(0), bv(0), bv(0)]);
    let read = oram.read_with_batch(vec![6, 1, 4, 0]).unwrap();
    assert_eq!(read, vec![bv(6), bv(1), bv(4), bv(0)]);
}

#[test]
fn batch_write_last_request_wins() {
    let mut oram = LinearTimeOram::<B>::new(4).unwrap();
    let old = oram
        .write_with_batch(vec![2, 2], vec![bv(5), bv(8)])
        .unwrap();
    assert_eq!(old, vec![bv(0), bv(0)]);
    assert_eq!(oram.read(2).unwrap(), bv(8));
}

#[test]
fn batch_out_of_bounds_names_first_bad_index() {
    let mut oram = LinearTimeOram::<B>::new(4).unwrap();
    match oram.write_with_batch(vec![1, 9, 7], vec![bv(1), bv(2), bv(3)]) {
        Err(OramError::AddressOutOfBoundsError { attempted, capacity }) => {
            assert_eq!(attempted, 9);
            assert_eq!(capacity, 4);
        }
        other => panic!("unexpected result {:?}", other),
    }
    assert_eq!(oram.read(1).unwrap(), bv(0));
}

#[test]
fn batch_callback_of_wrong_length_is_refused() {
    let mut oram = LinearTimeOram::<B>::new(4).unwrap();
    oram.write(1, bv(3)).unwrap();
    let r = oram.batched_access(vec![1, 2], |v: Vec<&B>| vec![*v[0]]);
    match r {
        Err(OramError::InvalidConfigurationError { parameter_name, parameter_value }) => {
            assert_eq!(parameter_name, "callback output length");
            assert_eq!(parameter_value, "expected 2, got 1");
        }
        other => panic!("unexpected result {:?}", other),
    }
    assert_eq!(oram.physical_memory, vec![bv(0), bv(3), bv(0), bv(0)]);
}

#[test]
fn write_with_batch_of_wrong_length_is_refused() {
    let mut oram = LinearTimeOram::<B>::new(4).unwrap();
    match oram.write_with_batch(vec![0, 1, 2], vec![bv(1)]) {
        Err(OramError::InvalidConfigurationError { parameter_name, parameter_value }) => {
            assert_eq!(parameter_name, "callback output length");
            assert_eq!(parameter_value, "expected 3, got 1");
        }
        other => panic!("unexpected result {:?}", other),
    }
}

#[test]
fn oblivious_batch_helpers_read_and_write() {
    let mut oram = LinearTimeOram::<B>::new(5).unwrap();
    oram.oblivious_write_batch(&vec![0, 3], &vec![bv(2), bv(7)]);
    assert_eq!(oram.oblivious_read_batch(&vec![3, 0, 1]), vec![bv(7), bv(2), bv(0)]);
}

#[test]
fn batch_matches_single_accesses_in_order() {
    let mut batch = LinearTimeOram::<B>::new(6).unwrap();
    let mut single = LinearTimeOram::<B>::new(6).unwrap();
    for i in 0..6u64 {
        batch.write(i, bv(i as u8)).unwrap();
        single.write(i, bv(i as u8)).unwrap();
    }
    let indices = vec![4u64, 1, 5];
    let bump = |x: &B| BlockValue::new([x.data[0] + 10; 4]);
    let from_batch = batch
        .batched_access(indices.clone(), |v: Vec<&B>| v.into_iter().map(bump).collect())
        .unwrap();
    let mut from_single = Vec::new();
    for &i in &indices {
        from_single.push(single.access(i, bump).unwrap());
    }
    assert_eq!(from_batch, from_single);
    assert_eq!(batch.physical_memory, single.physical_memory);
}
