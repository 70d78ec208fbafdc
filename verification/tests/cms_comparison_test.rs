use count_min_sketch_rs::CountMinSketch;

fn setup_sketch() -> CountMinSketch {
    CountMinSketch::new(1000, 8)
}

#[test]
fn test_l1_distance_identical() {
    let mut cms1 = setup_sketch();
    let mut cms2 = setup_sketch();

    let items = vec!["apple", "banana", "cherry", "date"];
    for item in items {
        cms1.increment(item);
        cms2.increment(item);
    }

    let dist = cms1.l1_distance(&cms2).unwrap();
    assert_eq!(dist, 0, "Distance between identical sketches should be 0");
}

#[test]
fn test_l1_distance_different() {
    let mut cms1 = setup_sketch();
    let mut cms2 = setup_sketch();

    for _ in 0..10 {
        cms1.increment("apple");
    }
    for _ in 0..5 {
        cms2.increment("banana");
    }

    let dist = cms1.l1_distance(&cms2).unwrap();

    assert!(dist >= 15);
    assert!(dist < 20);
}

#[test]
fn test_incompatible_dimensions() {
    let cms1 = CountMinSketch::new(1024, 4);
    let cms2 = CountMinSketch::new(512, 4);

    assert!(cms1.l1_distance(&cms2).is_err());
    assert!(!cms1.same_dimensions(&cms2));
}

#[test]
fn l1_distance_of_other_dimensions_is_an_error() {
    let a = CountMinSketch::new(1024, 4);
    let wider = CountMinSketch::new(2048, 4);
    let deeper = CountMinSketch::new(1024, 5);
    assert_eq!(a.l1_distance(&wider), Err("Incompatible dimensions."));
    assert_eq!(a.l1_distance(&deeper), Err("Incompatible dimensions."));
    assert_eq!(wider.l1_distance(&a), Err("Incompatible dimensions."));
}

#[test]
fn same_dimensions_compares_width_and_depth() {
    let a = CountMinSketch::new(1000, 4);
    assert!(a.same_dimensions(&CountMinSketch::with_seeds(1024, 4, [1, 2, 3, 4])));
    assert!(!a.same_dimensions(&CountMinSketch::new(1025, 4)));
    assert!(!a.same_dimensions(&CountMinSketch::new(1024, 3)));
}

#[test]
fn l1_distance_to_itself_is_zero() {
    let mut cms = CountMinSketch::new(32, 3);
    for item in ["a", "b", "c", "a"] {
        cms.increment(item);
    }
    assert_eq!(cms.l1_distance(&cms), Ok(0));
}

#[test]
fn l1_distance_is_the_smallest_row_sum() {
    let mut a = CountMinSketch::new(1024, 4);
    let b = CountMinSketch::new(1024, 4);
    for _ in 0..3 {
        a.increment_hashed(7);
    }
    a.increment_hashed(0);
    assert_eq!(a.l1_distance(&b), Ok(4));
    assert_eq!(b.l1_distance(&a), Ok(4));

    // On a table of width 1 all items meet in one counter per row.
    let mut c = CountMinSketch::new(1, 2);
    let mut d = CountMinSketch::new(1, 2);
    for _ in 0..5 {
        c.increment_hashed(1);
    }
    for _ in 0..2 {
        d.increment_hashed(2);
    }
    assert_eq!(c.l1_distance(&d), Ok(3));
}

#[test]
fn l1_distance_is_capped() {
    let mut a = CountMinSketch::new(1024, 4);
    let mut b = CountMinSketch::new(1024, 4);
    let zero = CountMinSketch::new(1024, 4);
    a.increment_hashed(7);
    a.increment_hashed(0);
    b.increment_hashed(7);
    b.increment_hashed(0);
    for _ in 0..100 {
        a.merge(&b).unwrap();
        b.merge(&a).unwrap();
    }
    assert_eq!(a.counter(0, 7), u64::MAX);
    assert_eq!(a.counter(0, 0), u64::MAX);
    assert_eq!(a.l1_distance(&zero), Ok(u64::MAX));
}
