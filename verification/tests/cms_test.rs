use count_min_sketch_rs::CountMinSketch;

#[test]
fn test_initialization() {
    let cms = CountMinSketch::new(512usize, 4usize);
    assert_eq!(cms.get_depth(), 4);
    assert_eq!(cms.get_width(), 512);
    assert_eq!(cms.estimate("anything"), 0);
}

#[test]
fn test_basic_increment() {
    let mut cms = CountMinSketch::new(1024usize, 8usize);
    let key = "rust_is_fast";

    cms.increment(key);
    cms.increment(key);
    cms.increment(key);

    assert_eq!(cms.estimate(key), 3);
}

#[test]
fn test_no_underestimation() {
    let mut cms = CountMinSketch::new(1024usize, 8usize);
    let items = vec!["apple", "banana", "apple", "cherry", "apple", "banana"];

    for item in &items {
        cms.increment(item);
    }

    assert!(cms.estimate("apple") >= 3);
    assert!(cms.estimate("banana") >= 2);
    assert!(cms.estimate("cherry") >= 1);
}

#[test]
fn test_merge() {
    let mut cms1 = CountMinSketch::new(1024usize, 8usize);
    let mut cms2 = CountMinSketch::new(1024usize, 8usize);

    cms1.increment("a");
    cms2.increment("a");
    cms2.increment("b");

    cms1.merge(&cms2).expect("Merge should succeed");

    assert!(cms1.estimate("a") >= 2);
    assert!(cms1.estimate("b") >= 1);
}

#[test]
fn test_clear() {
    let mut cms = CountMinSketch::new(1024usize, 8usize);
    cms.increment("ghost");
    cms.clear();
    assert_eq!(cms.estimate("ghost"), 0);
}

#[test]
fn test_saturating_add() {
    let mut cms = CountMinSketch::new(1024usize, 8usize);
    let key = "big_counter";
    for _ in 0..100 {
        cms.increment(key);
    }
    assert_eq!(cms.estimate(key), 100);
}

#[test]
fn width_is_rounded_up_to_a_power_of_two() {
    assert_eq!(CountMinSketch::new(100, 3).get_width(), 128);
    assert_eq!(CountMinSketch::new(1024, 3).get_width(), 1024);
    assert_eq!(CountMinSketch::new(272, 5).get_width(), 512);
    assert_eq!(CountMinSketch::new(1, 1).get_width(), 1);
    assert_eq!(CountMinSketch::new(3, 1).get_width(), 4);
}

#[test]
fn depth_is_kept_as_given() {
    assert_eq!(CountMinSketch::new(100, 3).get_depth(), 3);
    assert_eq!(CountMinSketch::new(272, 5).get_depth(), 5);
    assert_eq!(CountMinSketch::with_seeds(16, 7, [1, 2, 3, 4]).get_depth(), 7);
}

#[test]
fn clear_keeps_the_dimensions() {
    let mut cms = CountMinSketch::new(100, 6);
    cms.increment("x");
    cms.clear();
    assert_eq!(cms.get_width(), 128);
    assert_eq!(cms.get_depth(), 6);
    assert_eq!(cms.estimate("x"), 0);
    cms.increment("x");
    assert_eq!(cms.estimate("x"), 1);
}

#[test]
fn fresh_sketch_estimates_zero() {
    let cms = CountMinSketch::with_seeds(64, 3, [11, 22, 33, 44]);
    for item in ["", "a", "b", "never seen"] {
        assert_eq!(cms.estimate(item), 0);
    }
    for h in [0u64, 1, 7, u64::MAX] {
        assert_eq!(cms.estimate_hashed(h), 0);
    }
}

#[test]
fn distinct_items_get_distinct_counters() {
    let mut cms = CountMinSketch::new(1024, 8);
    cms.increment("present");
    assert_eq!(cms.estimate("present"), 1);
    assert_eq!(cms.estimate("absent"), 0);
}

#[test]
fn same_seeds_give_the_same_counters() {
    let mut a = CountMinSketch::with_seeds(256, 4, [5, 6, 7, 8]);
    let mut b = CountMinSketch::with_seeds(256, 4, [5, 6, 7, 8]);
    for item in ["one", "two", "three", "two"] {
        a.increment(item);
        b.increment(item);
    }
    for row in 0..4 {
        for col in 0..256 {
            assert_eq!(a.counter(row, col), b.counter(row, col));
        }
    }
}

#[test]
fn different_seeds_give_different_counters() {
    let mut a = CountMinSketch::with_seeds(1024, 8, [5, 6, 7, 8]);
    let mut b = CountMinSketch::with_seeds(1024, 8, [9, 10, 11, 12]);
    a.increment("item");
    b.increment("item");
    assert!(a.l1_distance(&b).unwrap() > 0);
}

#[test]
fn default_seeds_are_fixed() {
    let mut a = CountMinSketch::new(1024, 8);
    let mut b = CountMinSketch::with_seeds(1024, 8, [2025, 2, 18, 2118]);
    a.increment("item");
    b.increment("item");
    assert_eq!(a.l1_distance(&b), Ok(0));
}

#[test]
fn increments_by_hash_hit_one_counter_in_each_row() {
    let mut cms = CountMinSketch::new(1024, 4);
    cms.increment_hashed(7);
    let buckets = [7usize, 478, 949, 396];
    for row in 0..4 {
        for col in 0..1024 {
            let expected = if col == buckets[row] { 1 } else { 0 };
            assert_eq!(cms.counter(row, col), expected);
        }
    }
    assert_eq!(cms.estimate_hashed(7), 1);
    assert_eq!(cms.estimate_hashed(0), 0);
    cms.increment_hashed(7);
    cms.increment_hashed(0);
    assert_eq!(cms.estimate_hashed(7), 2);
    assert_eq!(cms.estimate_hashed(0), 1);
}

#[test]
fn estimate_is_the_smallest_counter() {
    // On a table of width 1 every item shares the one counter of each row.
    let mut cms = CountMinSketch::new(1, 3);
    cms.increment_hashed(1);
    cms.increment_hashed(2);
    cms.increment_hashed(3);
    assert_eq!(cms.estimate_hashed(99), 3);
    assert_eq!(cms.estimate("anything"), 3);
}

#[test]
fn merge_adds_cell_by_cell() {
    let mut a = CountMinSketch::new(1024, 4);
    let mut b = CountMinSketch::new(1024, 4);
    a.increment_hashed(7);
    a.increment_hashed(7);
    b.increment_hashed(7);
    b.increment_hashed(0);
    assert_eq!(a.merge(&b), Ok(()));
    assert_eq!(a.estimate_hashed(7), 3);
    assert_eq!(a.estimate_hashed(0), 1);
    assert_eq!(a.counter(1, 478), 3);
    assert_eq!(a.counter(1, 431), 1);
    assert_eq!(a.counter(1, 0), 0);
    assert_eq!(b.estimate_hashed(7), 1);
}

#[test]
fn merge_of_other_dimensions_changes_nothing() {
    let mut a = CountMinSketch::new(1024, 4);
    let mut wider = CountMinSketch::new(2048, 4);
    let mut deeper = CountMinSketch::new(1024, 5);
    a.increment_hashed(7);
    wider.increment_hashed(7);
    deeper.increment_hashed(7);
    assert_eq!(a.merge(&wider), Err("Incompatible dimensions"));
    assert_eq!(a.merge(&deeper), Err("Incompatible dimensions"));
    assert_eq!(a.get_width(), 1024);
    assert_eq!(a.get_depth(), 4);
    assert_eq!(a.estimate_hashed(7), 1);
    assert_eq!(wider.estimate_hashed(7), 1);
    assert_eq!(deeper.estimate_hashed(7), 1);
}

#[test]
fn merge_keeps_the_counts_of_both_streams() {
    let mut a = CountMinSketch::new(64, 4);
    let mut b = CountMinSketch::new(64, 4);
    for _ in 0..3 {
        a.increment("left");
        b.increment("right");
    }
    b.increment("left");
    a.merge(&b).unwrap();
    assert!(a.estimate("left") >= 4);
    assert!(a.estimate("right") >= 3);
}

#[test]
fn counters_stop_at_their_maximum() {
    let mut a = CountMinSketch::new(1024, 4);
    let mut b = CountMinSketch::new(1024, 4);
    a.increment_hashed(7);
    b.increment_hashed(7);
    for _ in 0..100 {
        a.merge(&b).unwrap();
        b.merge(&a).unwrap();
    }
    assert_eq!(a.estimate_hashed(7), u64::MAX);
    a.increment_hashed(7);
    assert_eq!(a.estimate_hashed(7), u64::MAX);
    assert_eq!(a.counter(0, 7), u64::MAX);
    assert_eq!(a.estimate_hashed(0), 0);
}

#[test]
fn items_are_hashed_with_the_seeds() {
    let seeds = [[2025u64, 2, 18, 2118], [1, 2, 3, 4], [0, 0, 0, 0]];
    for s in seeds {
        let state = ahash::RandomState::with_seeds(s[0], s[1], s[2], s[3]);
        let mut by_item = CountMinSketch::with_seeds(512, 5, s);
        let mut by_hash = CountMinSketch::with_seeds(512, 5, s);
        for item in ["apple", "banana", "", "apple", "a longer item, with spaces"] {
            by_item.increment(item);
            by_hash.increment_hashed(state.hash_one(item));
            assert_eq!(by_item.estimate(item), by_hash.estimate_hashed(state.hash_one(item)));
        }
        for row in 0..5 {
            for col in 0..512 {
                assert_eq!(by_item.counter(row, col), by_hash.counter(row, col));
            }
        }
    }
}

#[test]
fn merge_is_commutative_and_associative() {
    let build = |hashes: &[u64]| {
        let mut s = CountMinSketch::new(8, 3);
        for h in hashes {
            s.increment_hashed(*h);
        }
        s
    };
    let (xs, ys, zs) = ([1u64, 2, 3, 1], [3u64, 4], [5u64, 1, 1]);

    let mut ab = build(&xs);
    ab.merge(&build(&ys)).unwrap();
    let mut ba = build(&ys);
    ba.merge(&build(&xs)).unwrap();
    assert_eq!(ab.l1_distance(&ba), Ok(0));

    let mut left = build(&xs);
    left.merge(&build(&ys)).unwrap();
    left.merge(&build(&zs)).unwrap();
    let mut bc = build(&ys);
    bc.merge(&build(&zs)).unwrap();
    let mut right = build(&xs);
    right.merge(&bc).unwrap();
    for row in 0..3 {
        for col in 0..8 {
            assert_eq!(left.counter(row, col), right.counter(row, col));
        }
    }
}

#[test]
fn counters_never_go_down() {
    let mut cms = CountMinSketch::new(8, 3);
    let mut before = vec![0u64; 24];
    for h in [1u64, 9, 1, 4, 4, 4, 7] {
        cms.increment_hashed(h);
        for row in 0..3 {
            for col in 0..8 {
                let now = cms.counter(row, col);
                assert!(now >= before[row * 8 + col]);
                before[row * 8 + col] = now;
            }
        }
    }
}
