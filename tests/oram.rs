use path_oram::client::{ceil_log2, PathORAMHandler, SetupError};
use path_oram::geometry::{get_index, get_on_path_indices};
use path_oram::store::MyPathOram;
use path_oram::wire::{Block, StoreError, EMPTY};
use rand::rngs::StdRng;
use rand::{Rng, SeedableRng};

fn fresh(z: i32, seed: u64, data: Vec<i32>) -> (PathORAMHandler, MyPathOram) {
    let mut h = PathORAMHandler::new(z, seed);
    let mut store = MyPathOram::new(None, None);
    assert_eq!(h.setup(&mut store, data), Ok(()));
    (h, store)
}

fn snapshot(store: &MyPathOram, num_buckets: i32) -> Vec<Block> {
    let all: Vec<i32> = (0..num_buckets).collect();
    store.read_block(&all).unwrap()
}

#[test]
fn four_slots_read_and_write() {
    let (mut h, mut store) = fresh(4, 11, vec![10, 20, 30, 40]);
    assert_eq!(h.read(&mut store, 0), Some(10));
    assert_eq!(h.read(&mut store, 3), Some(40));
    assert_eq!(h.write(&mut store, 1, 99), Some(20));
    assert_eq!(h.read(&mut store, 1), Some(99));
    assert_eq!(h.read(&mut store, 2), Some(30));
}

#[test]
fn single_slot_single_bucket() {
    assert_eq!(ceil_log2(1), 0);
    assert_eq!(get_index(0, 0, 0), 0);
    let (mut h, mut store) = fresh(4, 11, vec![7]);
    assert_eq!(h.path_indices(0), vec![0]);
    assert_eq!(store.read_block(&vec![0]).map(|b| b.len()), Ok(4));
    assert_eq!(store.read_block(&vec![1]), Err(StoreError::NotFound));
    assert_eq!(h.read(&mut store, 0), Some(7));
    assert_eq!(h.write(&mut store, 0, 8), Some(7));
    assert_eq!(h.read(&mut store, 0), Some(8));
}

#[test]
fn eight_slots_small_buckets_stash_stays_small() {
    let data: Vec<i32> = (0..8).collect();
    let (mut h, mut store) = fresh(2, 11, data);
    for a in 0..8 {
        assert_eq!(h.read(&mut store, a), Some(a));
    }
    let mut rng = StdRng::seed_from_u64(5);
    let mut largest = h.stash_len();
    for _ in 0..10_000 {
        let a: i32 = rng.gen_range(0..8);
        assert_eq!(h.read(&mut store, a), Some(a));
        largest = largest.max(h.stash_len());
    }
    assert!(largest <= 6, "stash grew to {}", largest);
}

#[test]
fn access_touches_only_the_old_path() {
    let data: Vec<i32> = (100..108).collect();
    let (mut h, mut store) = fresh(4, 11, data);
    let leaf = h.leaf_of(3);
    let path = h.path_indices(leaf);
    assert_eq!(path.len(), 4);
    assert_eq!(path[3], 7 + leaf as i32);
    let before = snapshot(&store, 15);
    assert_eq!(h.read(&mut store, 3), Some(103));
    let after = snapshot(&store, 15);
    for bucket in 0..15 {
        if !path.contains(&bucket) {
            let s = (bucket * 4) as usize;
            assert_eq!(before[s..s + 4], after[s..s + 4]);
        }
    }
}

#[test]
fn write_block_out_of_range_is_not_found() {
    let mut store = MyPathOram::new(None, None);
    assert!(store.setup(3, 4));
    let before = snapshot(&store, 7);
    let blocks = vec![Block { index: 1, value: 5 }; 4];
    assert_eq!(store.write_block(vec![7], blocks), Err(StoreError::NotFound));
    assert_eq!(snapshot(&store, 7), before);
    let blocks = vec![Block { index: 1, value: 5 }; 4];
    assert_eq!(store.write_block(vec![-1], blocks), Err(StoreError::NotFound));
}

#[test]
fn write_block_wrong_length_is_invalid() {
    let mut store = MyPathOram::new(None, None);
    assert!(store.setup(3, 4));
    let before = snapshot(&store, 7);
    let blocks = vec![Block { index: 1, value: 5 }; 3];
    assert_eq!(store.write_block(vec![0], blocks), Err(StoreError::Invalid));
    let blocks = vec![Block { index: 1, value: 5 }; 8];
    assert_eq!(store.write_block(vec![0], blocks), Err(StoreError::Invalid));
    assert_eq!(snapshot(&store, 7), before);
}

#[test]
fn write_block_then_read_block() {
    let mut store = MyPathOram::new(None, None);
    assert!(store.setup(2, 2));
    let blocks = vec![
        Block { index: 1, value: 11 },
        Block::empty(),
        Block { index: 2, value: 22 },
        Block { index: 3, value: 33 },
    ];
    assert_eq!(store.write_block(vec![2, 0], blocks), Ok(()));
    let got = store.read_block(&vec![0, 1, 2]).unwrap();
    assert_eq!(
        got,
        vec![
            Block { index: 2, value: 22 },
            Block { index: 3, value: 33 },
            Block::empty(),
            Block::empty(),
            Block { index: 1, value: 11 },
            Block::empty(),
        ]
    );
}

#[test]
fn store_setup_rejects_bad_shapes() {
    let mut store = MyPathOram::new(Some(3), Some(2));
    assert_eq!(store.read_block(&vec![0, 1, 2]).map(|b| b.len()), Ok(6));
    assert!(!store.setup(0, 4));
    assert!(!store.setup(3, 0));
    assert!(!store.setup(32, 4));
    assert_eq!(store.read_block(&vec![2]).map(|b| b.len()), Ok(2));
    assert!(store.setup(3, 2));
    let all = store.read_block(&(0..7).collect()).unwrap();
    assert_eq!(all.len(), 14);
    assert!(all.iter().all(|b| b.index == EMPTY && b.value == EMPTY));
    assert_eq!(store.read_block(&vec![7]), Err(StoreError::NotFound));
}

#[test]
fn empty_block_is_the_sentinel() {
    let e = Block::empty();
    assert_eq!(e.index, -1);
    assert_eq!(e.value, -1);
}

#[test]
fn index_formula_values() {
    // depth 2: leaves 0..4 are buckets 3..7
    assert_eq!(get_index(2, 0, 2), 3);
    assert_eq!(get_index(2, 3, 2), 6);
    assert_eq!(get_index(2, 3, 1), 2);
    assert_eq!(get_index(2, 1, 1), 1);
    assert_eq!(get_index(2, 3, 0), 0);
    assert_eq!(get_index(3, 5, 1), 2);
    assert_eq!(get_index(3, 5, 2), 5);
    assert_eq!(get_index(3, 5, 3), 12);
}

#[test]
fn index_is_ancestor_of_leaf_bucket() {
    for depth in 0..6u32 {
        for x in 0..(1u32 << depth) {
            let leaf = get_index(depth, x, depth);
            for l in 0..=depth {
                let mut i = leaf;
                for _ in 0..(depth - l) {
                    i = (i - 1) / 2;
                }
                assert_eq!(get_index(depth, x, l), i);
                let (lo, hi) = get_on_path_indices(depth, x, l);
                for y in 0..(1u32 << depth) {
                    let through = get_index(depth, y, l) == get_index(depth, x, l);
                    assert_eq!(lo <= y && y < hi, through);
                }
            }
        }
    }
}

#[test]
fn on_path_ranges() {
    assert_eq!(get_on_path_indices(2, 3, 2), (3, 4));
    assert_eq!(get_on_path_indices(2, 3, 1), (2, 4));
    assert_eq!(get_on_path_indices(2, 3, 0), (0, 4));
    assert_eq!(get_on_path_indices(3, 5, 1), (4, 8));
    assert_eq!(get_on_path_indices(0, 0, 0), (0, 1));
}

#[test]
fn ceil_log2_values() {
    assert_eq!(ceil_log2(1), 0);
    assert_eq!(ceil_log2(2), 1);
    assert_eq!(ceil_log2(3), 2);
    assert_eq!(ceil_log2(4), 2);
    assert_eq!(ceil_log2(5), 3);
    assert_eq!(ceil_log2(8), 3);
    assert_eq!(ceil_log2(9), 4);
}

#[test]
fn read_after_write_with_other_accesses() {
    let data: Vec<i32> = (0..16).collect();
    let (mut h, mut store) = fresh(3, 7, data);
    assert_eq!(h.write(&mut store, 5, 500), Some(5));
    for a in 0..16 {
        if a != 5 {
            h.write(&mut store, a, a * 10);
            h.read(&mut store, a);
        }
    }
    assert_eq!(h.read(&mut store, 5), Some(500));
}

#[test]
fn overwrite_keeps_last_value() {
    let (mut h, mut store) = fresh(4, 3, vec![1, 2, 3]);
    assert_eq!(h.write(&mut store, 2, 40), Some(3));
    assert_eq!(h.write(&mut store, 2, 50), Some(40));
    assert_eq!(h.read(&mut store, 2), Some(50));
}

#[test]
fn setup_then_every_address_reads_back() {
    let data: Vec<i32> = (0..37).map(|i| i * i - 3).collect();
    let (mut h, mut store) = fresh(4, 99, data.clone());
    assert_eq!(h.len(), 37);
    for a in 0..37 {
        assert_eq!(h.read(&mut store, a), Some(data[a as usize]));
    }
}

#[test]
fn setup_with_zero_bucket_size_fails() {
    let mut h = PathORAMHandler::new(0, 11);
    let mut store = MyPathOram::new(None, None);
    assert_eq!(h.setup(&mut store, vec![1, 2]), Err(SetupError::Config));
}

#[test]
fn leaves_drawn_in_range() {
    let data: Vec<i32> = (0..6).collect();
    let (mut h, mut store) = fresh(2, 11, data);
    let mut seen = std::collections::HashSet::new();
    for round in 0..50 {
        for a in 0..6u32 {
            assert!(h.leaf_of(a) < 8);
            seen.insert(h.leaf_of(a));
            h.read(&mut store, a as i32);
        }
        let _ = round;
    }
    assert!(seen.len() > 1);
}

#[test]
fn tree_blocks_match_contents() {
    let data: Vec<i32> = (0..8).map(|i| 1000 + i).collect();
    let (mut h, mut store) = fresh(4, 11, data);
    for _ in 0..20 {
        for a in 0..8 {
            h.read(&mut store, a);
        }
    }
    let all = snapshot(&store, 15);
    assert_eq!(all.len(), 60);
    for b in all {
        if b.index != EMPTY {
            assert!(0 <= b.index && b.index < 8);
            assert_eq!(b.value, 1000 + b.index);
        }
    }
}

/// The leaf read at one access, over many seeds, has the same spread whether
/// the accesses repeat one address or walk over several.
#[test]
fn read_paths_do_not_depend_on_addresses() {
    let seeds = 2000u64;
    let mut same = [0u32; 8];
    let mut spread = [0u32; 8];
    for seed in 0..seeds {
        for (hist, addrs) in [(&mut same, [0, 0, 0, 0, 0]), (&mut spread, [1, 2, 3, 4, 5])] {
            let data: Vec<i32> = (0..8).collect();
            let (mut h, mut store) = fresh(4, seed, data);
            let mut last = 0;
            for a in addrs {
                last = h.leaf_of(a as u32);
                assert_eq!(h.read(&mut store, a), Some(a));
            }
            hist[last as usize] += 1;
        }
    }
    for leaf in 0..8 {
        assert!(same[leaf] > 150 && same[leaf] < 350, "{:?}", same);
        assert!(spread[leaf] > 150 && spread[leaf] < 350, "{:?}", spread);
    }
}

#[test]
fn split_access_reads_old_path_and_writes_it_leaf_first() {
    let (mut h, mut store) = fresh(4, 11, vec![10, 20, 30, 40]);
    let before = h.leaf_of(3);
    let (x, indices) = h.begin_access(3);
    assert_eq!(x, before);
    assert_eq!(indices, h.path_indices(x));
    assert_eq!(indices.len(), 3);
    for (l, &i) in indices.iter().enumerate() {
        assert_eq!(i as u32, get_index(2, x, l as u32));
    }
    assert!(h.leaf_of(3) < 4);
    let blocks = store.read_block(&indices).unwrap();
    assert_eq!(blocks.len(), 12);
    let (out, req) = h.finish_access(x, &blocks, 3, Some(77));
    assert_eq!(out, Some(40));
    let mut leaf_first = indices.clone();
    leaf_first.reverse();
    assert_eq!(req.indices, leaf_first);
    assert_eq!(req.blocks.len(), 12);
    assert_eq!(store.write_block(req.indices, req.blocks), Ok(()));
    assert_eq!(h.read(&mut store, 3), Some(77));
    assert_eq!(h.read(&mut store, 0), Some(10));
}

#[test]
fn single_bucket_access_reads_bucket_zero() {
    let (mut h, mut store) = fresh(4, 11, vec![7]);
    let (x, indices) = h.begin_access(0);
    assert_eq!(x, 0);
    assert_eq!(indices, vec![0]);
    let blocks = store.read_block(&indices).unwrap();
    let (out, req) = h.finish_access(x, &blocks, 0, None);
    assert_eq!(out, Some(7));
    assert_eq!(req.indices, vec![0]);
    assert_eq!(req.blocks.len(), 4);
}

#[test]
fn equal_runs_write_equal_trees() {
    let run = || {
        let data: Vec<i32> = (0..8).collect();
        let (mut h, mut store) = fresh(2, 23, data);
        let mut outs = Vec::new();
        for i in 0..200 {
            let a = (i * 5) % 8;
            if i % 3 == 0 {
                outs.push(h.write(&mut store, a, i));
            } else {
                outs.push(h.read(&mut store, a));
            }
        }
        (outs, snapshot(&store, 15), h.stash_len())
    };
    assert_eq!(run(), run());
}

#[test]
fn new_handler_is_empty() {
    let h = PathORAMHandler::new(4, 1);
    assert_eq!(h.len(), 0);
    assert_eq!(h.stash_len(), 0);
}
