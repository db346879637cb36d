use sketchy::cms::{MergeError, Sketch};

#[test]
fn empty_sketch_counts_zero() {
    let s = Sketch::new(64, 4);
    assert_eq!(s.count("a".as_bytes()), 0);
    assert_eq!(s.count(&[]), 0);
    assert_eq!(s.width(), 64);
    assert_eq!(s.depth(), 4);
}

#[test]
fn counts_add_up() {
    let mut s = Sketch::new(64, 4);
    s.add("a".as_bytes(), 5);
    s.add("a".as_bytes(), 3);
    assert!(s.count("a".as_bytes()) >= 8);
    assert_eq!(s.count("a".as_bytes()), 8);
    assert_eq!(s.count("b".as_bytes()), 0);
}

#[test]
fn counts_add_up_in_any_shape() {
    for (width, depth) in [(1u32, 1u32), (2, 3), (16, 4), (1000, 7)] {
        let mut s = Sketch::new(width, depth);
        s.add("a".as_bytes(), 5);
        s.add("a".as_bytes(), 3);
        assert!(s.count("a".as_bytes()) >= 8);
    }
}

#[test]
fn sketch_never_underestimates() {
    let mut s = Sketch::new(64, 4);
    s.add("a".as_bytes(), 5);
    s.add("a".as_bytes(), 3);
    for i in 0..200u32 {
        s.add(format!("k{}", i).as_bytes(), i);
        assert!(s.count("a".as_bytes()) >= 8);
    }
    for i in 0..200u32 {
        assert!(s.count(format!("k{}", i).as_bytes()) >= i);
    }
    assert_eq!(s.count("a".as_bytes()), 8);
    assert_eq!(s.count("k0".as_bytes()), 142);
    assert_eq!(s.count("k1".as_bytes()), 35);
    assert_eq!(s.count("k50".as_bytes()), 381);
    assert_eq!(s.count("k199".as_bytes()), 522);
}

#[test]
fn sketch_without_rows_reports_the_maximum() {
    let mut s = Sketch::new(8, 0);
    assert_eq!(s.count("a".as_bytes()), u32::MAX);
    s.add("a".as_bytes(), 1);
    assert_eq!(s.count("a".as_bytes()), u32::MAX);
}

#[test]
fn counters_saturate() {
    let mut s = Sketch::new(16, 3);
    s.add("a".as_bytes(), u32::MAX - 1);
    assert_eq!(s.count("a".as_bytes()), u32::MAX - 1);
    s.add("a".as_bytes(), 1);
    assert_eq!(s.count("a".as_bytes()), u32::MAX);
    s.add("a".as_bytes(), 7);
    assert_eq!(s.count("a".as_bytes()), u32::MAX);

    let mut t = Sketch::new(16, 3);
    t.add("a".as_bytes(), u32::MAX);
    assert_eq!(s.merge(&t), Ok(()));
    assert_eq!(s.count("a".as_bytes()), u32::MAX);
    s.compress();
    assert_eq!(s.count("a".as_bytes()), u32::MAX);
}

#[test]
fn merge_adds_the_counters() {
    let mut s = Sketch::new(64, 4);
    s.add("a".as_bytes(), 5);
    s.add("a".as_bytes(), 3);
    let mut t = Sketch::new(64, 4);
    t.add("a".as_bytes(), 10);
    t.add("zz".as_bytes(), 7);
    assert_eq!(s.merge(&t), Ok(()));
    assert_eq!(s.count("a".as_bytes()), 18);
    assert_eq!(s.count("zz".as_bytes()), 7);
    assert_eq!(t.count("a".as_bytes()), 10);
    assert_eq!(t.count("zz".as_bytes()), 7);
}

#[test]
fn merge_equals_one_sketch_over_both_streams() {
    let mut first = Sketch::new(32, 3);
    let mut second = Sketch::new(32, 3);
    let mut both = Sketch::new(32, 3);
    for i in 0..100u32 {
        let item = format!("k{}", i % 17);
        first.add(item.as_bytes(), i);
        both.add(item.as_bytes(), i);
    }
    for i in 0..100u32 {
        let item = format!("k{}", i % 23);
        second.add(item.as_bytes(), 2 * i + 1);
        both.add(item.as_bytes(), 2 * i + 1);
    }
    assert!(first.merge(&second).is_ok());
    for i in 0..40u32 {
        let item = format!("k{}", i);
        assert_eq!(first.count(item.as_bytes()), both.count(item.as_bytes()));
    }
}

#[test]
fn merge_is_commutative_on_counts() {
    let mut a0 = Sketch::new(16, 2);
    let mut b0 = Sketch::new(16, 2);
    let mut a1 = Sketch::new(16, 2);
    let mut b1 = Sketch::new(16, 2);
    for i in 0..50u32 {
        a0.add(format!("x{}", i).as_bytes(), i);
        a1.add(format!("x{}", i).as_bytes(), i);
        b0.add(format!("y{}", i).as_bytes(), 3 * i);
        b1.add(format!("y{}", i).as_bytes(), 3 * i);
    }
    assert!(a0.merge(&b0).is_ok());
    assert!(b1.merge(&a1).is_ok());
    for i in 0..50u32 {
        let x = format!("x{}", i);
        let y = format!("y{}", i);
        assert_eq!(a0.count(x.as_bytes()), b1.count(x.as_bytes()));
        assert_eq!(a0.count(y.as_bytes()), b1.count(y.as_bytes()));
    }
}

#[test]
fn merge_of_mismatched_width_is_refused() {
    let mut s = Sketch::new(64, 4);
    let mut t = Sketch::new(32, 4);
    s.add("a".as_bytes(), 5);
    t.add("a".as_bytes(), 9);
    t.add("b".as_bytes(), 2);

    assert_eq!(s.merge(&t), Err(MergeError::DimensionMismatch));

    assert_eq!(s.width(), 64);
    assert_eq!(s.depth(), 4);
    assert_eq!(s.count("a".as_bytes()), 5);
    assert_eq!(s.count("b".as_bytes()), 0);
    assert_eq!(t.width(), 32);
    assert_eq!(t.depth(), 4);
    assert_eq!(t.count("a".as_bytes()), 9);
    assert_eq!(t.count("b".as_bytes()), 2);
}

#[test]
fn merge_of_mismatched_depth_is_refused() {
    let mut s = Sketch::new(64, 4);
    let mut t = Sketch::new(64, 5);
    s.add("a".as_bytes(), 5);
    t.add("a".as_bytes(), 9);
    assert_eq!(s.merge(&t), Err(MergeError::DimensionMismatch));
    assert_eq!(s.count("a".as_bytes()), 5);
    assert_eq!(t.count("a".as_bytes()), 9);
    assert_eq!(t.merge(&s), Err(MergeError::DimensionMismatch));
    assert_eq!(s.count("a".as_bytes()), 5);
    assert_eq!(t.count("a".as_bytes()), 9);
}

#[test]
fn compress_halves_the_sketch() {
    let mut s = Sketch::new(64, 4);
    s.add("a".as_bytes(), 18);
    s.add("zz".as_bytes(), 7);
    assert!(s.can_compress());
    s.compress();
    assert_eq!(s.width(), 32);
    assert_eq!(s.depth(), 4);
    assert_eq!(s.count("a".as_bytes()), 18);
    assert_eq!(s.count("zz".as_bytes()), 7);
}

#[test]
fn compress_never_lowers_a_count() {
    let mut s = Sketch::new(64, 3);
    for i in 0..300u32 {
        s.add(format!("k{}", i).as_bytes(), i + 1);
    }
    let mut before: Vec<u32> = Vec::new();
    for i in 0..300u32 {
        before.push(s.count(format!("k{}", i).as_bytes()));
    }
    while s.can_compress() {
        s.compress();
        for i in 0..300u32 {
            let now = s.count(format!("k{}", i).as_bytes());
            assert!(now >= before[i as usize]);
            assert!(now >= i + 1);
            before[i as usize] = now;
        }
    }
    assert_eq!(s.width(), 1);
}

#[test]
fn odd_width_cannot_be_compressed() {
    assert!(!Sketch::new(1, 2).can_compress());
    assert!(!Sketch::new(33, 2).can_compress());
    assert!(Sketch::new(2, 2).can_compress());
}
