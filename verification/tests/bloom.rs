use sketchy::bf::{BFilter, MergeError};

#[test]
fn smoke_bfilter() {
    let mut bf = BFilter::new(1024, 8);

    let words = ["foo", "bar", "baz", "qux", "zot", "frob", "zork", "zeek"];

    for &w in words.iter() {
        bf.add(w.as_bytes());
    }

    for &w in words.iter() {
        assert!(bf.contains(w.as_bytes()));
    }

    assert!(!bf.contains("hello, world".as_bytes()));

    bf.compress();

    for &w in words.iter() {
        assert!(bf.contains(w.as_bytes()));
    }
}

#[test]
fn test_merge() {
    let mut bf0 = BFilter::new(1024, 8);
    let mut bf1 = BFilter::new(1024, 8);

    let words0 = ["foo", "bar", "baz", "qux"];
    let words1 = ["zot", "frob", "zork", "zeek"];

    for &w in words0.iter() {
        bf0.add(w.as_bytes());
    }

    for &w in words1.iter() {
        bf1.add(w.as_bytes());
    }

    let result = bf0.merge(&bf1);
    assert!(result.is_ok());

    for &w in words0.iter() {
        assert!(bf0.contains(w.as_bytes()));
    }

    for &w in words1.iter() {
        assert!(bf0.contains(w.as_bytes()));
    }
}

#[test]
fn empty_filter_contains_nothing() {
    let bf = BFilter::new(1024, 8);
    assert!(!bf.contains("foo".as_bytes()));
    assert!(!bf.contains(&[]));
    assert_eq!(bf.width(), 1024);
    assert_eq!(bf.hashes(), 8);
}

#[test]
fn added_item_is_contained_at_once() {
    let mut bf = BFilter::new(1024, 8);
    for i in 0..200u32 {
        let item = format!("item-{}", i);
        bf.add(item.as_bytes());
        assert!(bf.contains(item.as_bytes()));
    }
    for i in 0..200u32 {
        let item = format!("item-{}", i);
        assert!(bf.contains(item.as_bytes()));
    }
}

#[test]
fn adding_twice_changes_nothing() {
    let mut once = BFilter::new(256, 5);
    let mut twice = BFilter::new(256, 5);
    once.add("foo".as_bytes());
    twice.add("foo".as_bytes());
    twice.add("foo".as_bytes());
    for i in 0..500u32 {
        let item = format!("probe-{}", i);
        assert_eq!(once.contains(item.as_bytes()), twice.contains(item.as_bytes()));
    }
}

#[test]
fn smallest_filter_works() {
    let mut bf = BFilter::new(1, 1);
    assert!(!bf.contains("x".as_bytes()));
    bf.add("x".as_bytes());
    assert!(bf.contains("x".as_bytes()));
    assert!(bf.contains("anything".as_bytes()));
    assert!(!bf.can_compress());
}

#[test]
fn merge_of_different_word_counts_is_refused() {
    let mut bf0 = BFilter::new(1024, 8);
    let bf1 = BFilter::new(64, 8);
    let mut filled = BFilter::new(512, 8);
    bf0.add("foo".as_bytes());
    filled.add("bar".as_bytes());
    filled.add("hello, world".as_bytes());

    assert_eq!(bf0.merge(&bf1), Err(MergeError::DimensionMismatch));
    assert_eq!(bf0.merge(&filled), Err(MergeError::DimensionMismatch));

    assert_eq!(bf0.width(), 1024);
    assert_eq!(bf0.hashes(), 8);
    assert!(bf0.contains("foo".as_bytes()));
    assert!(!bf0.contains("bar".as_bytes()));
    assert!(!bf0.contains("hello, world".as_bytes()));
}

#[test]
fn merge_goes_by_word_count_not_width() {
    let mut bf0 = BFilter::new(1000, 8);
    let bf1 = BFilter::new(1024, 8);
    let bf2 = BFilter::new(960, 8);
    assert_eq!(bf0.merge(&bf1), Ok(()));
    assert_eq!(bf0.merge(&bf2), Err(MergeError::DimensionMismatch));
    assert_eq!(bf0.width(), 1000);
}

#[test]
fn merge_keeps_the_receivers_dimensions() {
    let mut bf0 = BFilter::new(1024, 8);
    let mut bf1 = BFilter::new(1024, 3);
    bf1.add("zot".as_bytes());
    assert!(bf0.merge(&bf1).is_ok());
    assert_eq!(bf0.width(), 1024);
    assert_eq!(bf0.hashes(), 8);
}

#[test]
fn merge_is_commutative() {
    let words0 = ["foo", "bar", "baz", "qux"];
    let words1 = ["zot", "frob", "zork", "zeek"];
    let mut a0 = BFilter::new(512, 4);
    let mut b0 = BFilter::new(512, 4);
    let mut a1 = BFilter::new(512, 4);
    let mut b1 = BFilter::new(512, 4);
    for &w in words0.iter() {
        a0.add(w.as_bytes());
        a1.add(w.as_bytes());
    }
    for &w in words1.iter() {
        b0.add(w.as_bytes());
        b1.add(w.as_bytes());
    }
    assert!(a0.merge(&b0).is_ok());
    assert!(b1.merge(&a1).is_ok());
    for i in 0..1000u32 {
        let item = format!("probe-{}", i);
        assert_eq!(a0.contains(item.as_bytes()), b1.contains(item.as_bytes()));
    }
}

#[test]
fn compress_halves_the_width() {
    let mut bf = BFilter::new(1024, 8);
    assert!(bf.can_compress());
    bf.compress();
    assert_eq!(bf.width(), 512);
    assert_eq!(bf.hashes(), 8);
    bf.compress();
    bf.compress();
    bf.compress();
    assert_eq!(bf.width(), 64);
    assert!(!bf.can_compress());
}

#[test]
fn presence_survives_adds_merges_and_compressions() {
    let words = ["foo", "bar", "baz", "qux", "zot", "frob", "zork", "zeek"];
    let mut bf = BFilter::new(1024, 8);
    for &w in words.iter() {
        bf.add(w.as_bytes());
    }
    let mut other = BFilter::new(1024, 8);
    other.add("more".as_bytes());
    assert!(bf.merge(&other).is_ok());
    bf.add("hello, world".as_bytes());
    let mut width: u32 = 1024;
    while width % 128 == 0 {
        bf.compress();
        width /= 2;
        assert_eq!(bf.width(), width);
        for &w in words.iter() {
            assert!(bf.contains(w.as_bytes()));
        }
        assert!(bf.contains("more".as_bytes()));
        assert!(bf.contains("hello, world".as_bytes()));
    }
    assert_eq!(width, 64);
}

#[test]
fn absent_item_stays_absent_down_to_one_word() {
    let words = ["foo", "bar", "baz", "qux", "zot", "frob", "zork", "zeek"];
    let mut bf = BFilter::new(1024, 8);
    for &w in words.iter() {
        bf.add(w.as_bytes());
    }
    for _ in 0..4 {
        bf.compress();
        assert!(!bf.contains("hello, world".as_bytes()));
    }
}

#[test]
fn compress_of_partial_words_may_lose_items() {
    let mut bf = BFilter::new(100, 4);
    bf.add("item0".as_bytes());
    assert!(bf.contains("item0".as_bytes()));
    assert!(bf.can_compress());
    bf.compress();
    assert_eq!(bf.width(), 50);
    assert!(!bf.contains("item0".as_bytes()));
}

#[test]
fn odd_word_count_cannot_be_compressed() {
    assert!(!BFilter::new(64, 8).can_compress());
    assert!(!BFilter::new(129, 8).can_compress());
    assert!(!BFilter::new(192, 8).can_compress());
    assert!(BFilter::new(65, 8).can_compress());
    assert!(BFilter::new(128, 8).can_compress());
}

fn false_positive_rate(width: u32, hashes: u32, members: u32, trials: u32) -> (f64, f64) {
    let mut bf = BFilter::new(width, hashes);
    for i in 0..members {
        bf.add(format!("member-{}", i).as_bytes());
    }
    let mut hits: u32 = 0;
    for i in 0..trials {
        if bf.contains(format!("absent-{}", i).as_bytes()) {
            hits += 1;
        }
    }
    let k = hashes as f64;
    let estimate = (1.0 - (-k * members as f64 / width as f64).exp()).powf(k);
    (hits as f64 / trials as f64, estimate)
}

#[test]
fn false_positive_rate_is_near_the_estimate() {
    for (width, hashes, members) in [(8192u32, 4u32, 1000u32), (16384, 8, 1000), (4096, 3, 800)] {
        let (seen, estimate) = false_positive_rate(width, hashes, members, 20000);
        assert!(seen <= 2.0 * estimate + 0.001);
        assert!(seen >= estimate / 2.0 - 0.001);
    }
}

#[test]
fn false_positive_counts_are_exact() {
    let (seen, _) = false_positive_rate(8192, 4, 1000, 20000);
    assert_eq!((seen * 20000.0).round() as u32, 468);
    let (seen, _) = false_positive_rate(16384, 8, 1000, 20000);
    assert_eq!((seen * 20000.0).round() as u32, 10);
}
