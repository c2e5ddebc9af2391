use oram::block::{Bucket, PathOramBlock, DUMMY_ADDRESS};
use oram::stash::ObliviousStash;
use oram::{BlockValue, OramError};

type B = BlockValue<4>;

fn bv(x: u8) -> B {
    BlockValue::new([x; 4])
}

/// A tree of height 2 (leaves 4..=7) with buckets of 2 blocks; index 0 is unused.
fn empty_memory() -> Vec<Bucket<B, 2>> {
    vec![
        Bucket {
            blocks: [PathOramBlock::dummy(); 2],
        };
        8
    ]
}

fn real_addresses(blocks: &[PathOramBlock<B>]) -> Vec<u64> {
    let mut a: Vec<u64> = blocks.iter().filter(|b| !b.is_dummy()).map(|b| b.address).collect();
    a.sort();
    a
}

#[test]
fn new_stash_is_all_dummies() {
    let stash = ObliviousStash::<B>::new(6, 4, 1).unwrap();
    assert_eq!(stash.blocks.len(), 10);
    assert_eq!(stash.blocks().len(), 10);
    assert!(stash.blocks.iter().all(|b| b.is_dummy() && b.address == DUMMY_ADDRESS));
    assert_eq!(stash.occupancy(), 0);
}

#[test]
fn access_inserts_then_reads_back() {
    let mut stash = ObliviousStash::<B>::new(6, 4, 1).unwrap();
    let old = stash.access(5, 4, |_: &B| bv(9)).unwrap();
    assert_eq!(old, bv(0));
    let last = stash.blocks[stash.blocks.len() - 1];
    assert_eq!(last.address, 5);
    assert_eq!(last.position, 4);
    assert_eq!(last.value, bv(9));
    assert_eq!(stash.occupancy(), 1);
    let read = stash.access(5, 6, |x: &B| *x).unwrap();
    assert_eq!(read, bv(9));
    assert_eq!(stash.blocks[stash.blocks.len() - 1].position, 6);
}

#[test]
fn write_then_read_path_round_trip() {
    let mut memory = empty_memory();
    let mut stash = ObliviousStash::<B>::new(6, 4, 1).unwrap();
    stash.access(5, 4, |_: &B| bv(9)).unwrap();
    stash.write_to_path(&mut memory, 4).unwrap();
    // The block goes as deep as possible: into the leaf bucket 4.
    assert_eq!(real_addresses(&memory[4].blocks), vec![5]);
    assert!(memory[1].blocks.iter().all(|b| b.is_dummy()));
    assert!(memory[2].blocks.iter().all(|b| b.is_dummy()));
    // The written blocks are the first Z * (height + 1) of the stash, root first.
    for depth in 0..3usize {
        let node = [1usize, 2, 4][depth];
        for slot in 0..2 {
            let b = stash.blocks[depth * 2 + slot];
            assert_eq!(memory[node].blocks[slot].address, b.address);
        }
    }
    // Reading the path back brings the block into the scratch prefix.
    let mut fresh = ObliviousStash::<B>::new(6, 4, 1).unwrap();
    fresh.read_from_path(&mut memory, 4).unwrap();
    assert_eq!(real_addresses(&fresh.blocks[0..6]), vec![5]);
    assert_eq!(fresh.blocks[4].address, memory[4].blocks[0].address);
    let value = fresh.access(5, 7, |x: &B| *x).unwrap();
    assert_eq!(value, bv(9));
}

#[test]
fn write_to_path_keeps_blocks_that_do_not_fit() {
    let mut memory = empty_memory();
    let mut stash = ObliviousStash::<B>::new(6, 10, 1).unwrap();
    // Three blocks mapped to leaf 7 do not meet the path to leaf 4 below the root.
    for a in 0..3u64 {
        stash.access(a, 7, |_: &B| bv(a as u8 + 1)).unwrap();
        // Move the inserted block out of the reserved last slot.
        let n = stash.blocks.len();
        stash.blocks.swap(n - 1, 6 + a as usize);
    }
    stash.write_to_path(&mut memory, 4).unwrap();
    // Only the root is on both paths; it takes two of them.
    assert_eq!(real_addresses(&memory[1].blocks).len(), 2);
    assert!(memory[2].blocks.iter().all(|b| b.is_dummy()));
    assert!(memory[4].blocks.iter().all(|b| b.is_dummy()));
    // The third stays in the stash, after the written prefix.
    assert_eq!(real_addresses(&stash.blocks[6..]).len(), 1);
    assert_eq!(real_addresses(&stash.blocks), vec![0, 1, 2]);
}

#[test]
fn read_from_path_union_is_canonical() {
    let memory = empty_memory();
    let mut stash = ObliviousStash::<B>::new(6, 4, 2).unwrap();
    let union = stash.read_from_path_union(&memory, &[7, 4]).unwrap();
    assert_eq!(union, vec![1, 2, 3, 4, 7]);
    // 5 buckets of 2 blocks of scratch, no overflow blocks, one reserved dummy.
    assert_eq!(stash.blocks.len(), 11);
    let empty = stash.read_from_path_union(&memory, &[]).unwrap();
    assert!(empty.is_empty());
}

#[test]
fn union_write_back_and_read_back() {
    let mut memory = empty_memory();
    let mut stash = ObliviousStash::<B>::new(6, 4, 2).unwrap();
    let union = stash.read_from_path_union(&memory, &[4, 7]).unwrap();
    let results = stash
        .batched_access(vec![10, 11], vec![7, 4], |old: Vec<&B>| {
            assert_eq!(old.len(), 2);
            vec![bv(1), bv(2)]
        })
        .unwrap();
    assert_eq!(results, vec![bv(0), bv(0)]);
    stash.write_to_path_union(&mut memory, &union).unwrap();
    assert_eq!(real_addresses(&memory[7].blocks), vec![10]);
    assert_eq!(real_addresses(&memory[4].blocks), vec![11]);
    // The stash is back to its fixed layout: scratch, no overflow, reserved dummy.
    assert_eq!(stash.blocks.len(), 7);
    assert!(stash.blocks.iter().all(|b| b.is_dummy()));
    // Read both paths again and read the values back.
    let union = stash.read_from_path_union(&memory, &[4, 7]).unwrap();
    assert_eq!(union, vec![1, 2, 3, 4, 7]);
    let values = stash
        .batched_access(vec![11, 10], vec![4, 7], |old: Vec<&B>| {
            old.into_iter().copied().collect()
        })
        .unwrap();
    assert_eq!(values, vec![bv(2), bv(1)]);
}

#[test]
fn batched_access_rejects_unequal_lengths() {
    let mut stash = ObliviousStash::<B>::new(6, 4, 2).unwrap();
    match stash.batched_access(vec![1, 2], vec![4], |v: Vec<&B>| v.into_iter().copied().collect()) {
        Err(OramError::InvalidConfigurationError { parameter_name, parameter_value }) => {
            assert_eq!(parameter_name, "batched_access input lengths");
            assert_eq!(
                parameter_value,
                "addresses has length 2, but new_positions has length 1"
            );
        }
        other => panic!("unexpected result {:?}", other),
    }
}

#[test]
fn batched_access_rejects_callback_of_wrong_length() {
    let mut stash = ObliviousStash::<B>::new(6, 4, 2).unwrap();
    match stash.batched_access(vec![1, 2], vec![4, 5], |_: Vec<&B>| vec![bv(1)]) {
        Err(OramError::InvalidConfigurationError { parameter_name, parameter_value }) => {
            assert_eq!(parameter_name, "batched_access callback output length");
            assert_eq!(parameter_value, "expected 2, got 1");
        }
        other => panic!("unexpected result {:?}", other),
    }
    assert!(stash.blocks.iter().all(|b| b.is_dummy()));
}

#[test]
fn batched_access_grows_stash_when_dummies_run_out() {
    let mut stash = ObliviousStash::<B>::new(1, 0, 3).unwrap();
    let results = stash
        .batched_access(vec![1, 2, 3], vec![4, 5, 6], |_: Vec<&B>| vec![bv(1), bv(2), bv(3)])
        .unwrap();
    assert_eq!(results, vec![bv(0), bv(0), bv(0)]);
    assert_eq!(stash.blocks.len(), 3);
    assert_eq!(real_addresses(&stash.blocks), vec![1, 2, 3]);
    // The first new block takes the last slot.
    assert_eq!(stash.blocks[2].address, 1);
    let again = stash
        .batched_access(vec![3, 1], vec![7, 7], |v: Vec<&B>| v.into_iter().copied().collect())
        .unwrap();
    assert_eq!(again, vec![bv(3), bv(1)]);
}

#[test]
fn write_to_path_fills_deepest_buckets_first() {
    let mut memory = empty_memory();
    let mut stash = ObliviousStash::<B>::new(6, 10, 1).unwrap();
    // Three blocks of leaf 4 and one of leaf 5: all lie on the path to leaf 4 down to
    // depth 1, and the first three down to the leaf.
    let leaves = [4u64, 4, 4, 5];
    for (a, leaf) in leaves.iter().enumerate() {
        stash.access(a as u64, *leaf, |_: &B| bv(a as u8 + 1)).unwrap();
        let n = stash.blocks.len();
        stash.blocks.swap(n - 1, 6 + a);
    }
    stash.write_to_path(&mut memory, 4).unwrap();
    // The leaf bucket is full of leaf-4 blocks; the rest go one level up.
    assert_eq!(real_addresses(&memory[4].blocks).len(), 2);
    assert!(memory[4].blocks.iter().all(|b| b.position == 4));
    // Blocks are placed in stash order: the first two leaf-4 blocks take the leaf bucket.
    assert_eq!(real_addresses(&memory[4].blocks), vec![0, 1]);
    assert_eq!(real_addresses(&memory[2].blocks), vec![2, 3]);
    assert_eq!(real_addresses(&memory[2].blocks).len(), 2);
    assert!(memory[1].blocks.iter().all(|b| b.is_dummy()));
    assert_eq!(real_addresses(&stash.blocks[6..]).len(), 0);
    assert_eq!(stash.occupancy(), 0);
    // The reserved last slot is still a dummy.
    assert!(stash.blocks.last().unwrap().is_dummy());
}

#[test]
fn write_to_path_grows_the_stash_only_as_needed() {
    // Enough dummies before the reserved last slot: no growth.
    let mut memory = empty_memory();
    let mut stash = ObliviousStash::<B>::new(6, 0, 1).unwrap();
    stash.access(1, 4, |_: &B| bv(1)).unwrap();
    stash.write_to_path(&mut memory, 4).unwrap();
    assert_eq!(stash.blocks.len(), 6);
    assert_eq!(real_addresses(&memory[4].blocks), vec![1]);

    // One dummy before the last (real) block for five free slots: one growth of ten.
    let mut memory = empty_memory();
    let mut stash = ObliviousStash::<B>::new(2, 0, 1).unwrap();
    stash.access(1, 4, |_: &B| bv(1)).unwrap();
    stash.write_to_path(&mut memory, 4).unwrap();
    assert_eq!(stash.blocks.len(), 12);
    assert_eq!(real_addresses(&memory[4].blocks), vec![1]);
    assert_eq!(real_addresses(&stash.blocks), vec![1]);
}

#[test]
fn union_write_back_fills_deepest_buckets_first() {
    let mut memory = empty_memory();
    let mut stash = ObliviousStash::<B>::new(6, 4, 3).unwrap();
    let union = stash.read_from_path_union(&memory, &[4]).unwrap();
    assert_eq!(union, vec![1, 2, 4]);
    stash
        .batched_access(vec![1, 2, 3], vec![4, 4, 4], |_: Vec<&B>| vec![bv(1), bv(2), bv(3)])
        .unwrap();
    stash.write_to_path_union(&mut memory, &union).unwrap();
    assert_eq!(real_addresses(&memory[4].blocks).len(), 2);
    assert_eq!(real_addresses(&memory[2].blocks).len(), 1);
    assert!(memory[1].blocks.iter().all(|b| b.is_dummy()));
    assert!(stash.blocks.last().unwrap().is_dummy());
}

#[test]
fn read_from_path_union_of_no_paths_is_empty() {
    let memory: Vec<Bucket<B, 2>> = empty_memory();
    let mut stash = ObliviousStash::<B>::new(6, 4, 1).unwrap();
    let before: Vec<u64> = stash.blocks.iter().map(|b| b.address).collect();
    let union = stash.read_from_path_union(&memory, &[]).unwrap();
    assert!(union.is_empty());
    let after: Vec<u64> = stash.blocks.iter().map(|b| b.address).collect();
    assert_eq!(before, after);
}

#[test]
fn union_does_not_depend_on_batch_order() {
    let memory = empty_memory();
    let mut a = ObliviousStash::<B>::new(6, 4, 3).unwrap();
    let mut b = ObliviousStash::<B>::new(6, 4, 3).unwrap();
    let ua = a.read_from_path_union(&memory, &[7, 4]).unwrap();
    let ub = b.read_from_path_union(&memory, &[4, 7, 4]).unwrap();
    assert_eq!(ua, ub);
    assert_eq!(a.blocks.len(), b.blocks.len());
}

#[test]
fn union_round_trip_keeps_every_block() {
    let mut memory = empty_memory();
    let mut stash = ObliviousStash::<B>::new(6, 4, 2).unwrap();
    let union = stash.read_from_path_union(&memory, &[4, 7]).unwrap();
    stash
        .batched_access(vec![10, 11], vec![7, 4], |_: Vec<&B>| vec![bv(1), bv(2)])
        .unwrap();
    stash.write_to_path_union(&mut memory, &union).unwrap();
    let count_all = |memory: &Vec<Bucket<B, 2>>, stash: &ObliviousStash<B>| {
        let mut all: Vec<u64> = memory.iter().flat_map(|b| real_addresses(&b.blocks)).collect();
        all.extend(real_addresses(&stash.blocks));
        all.sort();
        all
    };
    let before = count_all(&memory, &stash);
    assert_eq!(before, vec![10, 11]);
    let union = stash.read_from_path_union(&memory, &[7, 4]).unwrap();
    stash.write_to_path_union(&mut memory, &union).unwrap();
    assert_eq!(count_all(&memory, &stash), before);
}

#[test]
fn set_block_fills_a_slot_and_occupancy_skips_the_scratch_prefix() {
    let mut stash = ObliviousStash::<B>::new(2, 3, 1).unwrap();
    stash.set_block(0, PathOramBlock { value: bv(1), address: 0, position: 2 });
    stash.set_block(3, PathOramBlock { value: bv(2), address: 1, position: 3 });
    assert_eq!(stash.blocks()[3].address, 1);
    assert_eq!(stash.occupancy(), 1);
}
