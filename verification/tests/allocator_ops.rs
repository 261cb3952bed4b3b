use buddy_alloc::allocator::{AllocError, Allocator};

#[test]
fn rejects_bad_alignment_and_leaves_bins_unchanged() {
    let mut a = Allocator::new(0, 1024);
    assert_eq!(a.allocate(16, 3), Err(AllocError::Unsupported));
    assert_eq!(a.allocate(16, 0), Err(AllocError::Unsupported));
    assert_eq!(a.allocate(16, 6), Err(AllocError::Unsupported));
    // the bins were untouched: the region's first block is still handed out
    assert_eq!(a.allocate(8, 8), Ok(0));
}

#[test]
fn rejects_zero_size() {
    let mut a = Allocator::new(0, 1024);
    assert_eq!(a.allocate(0, 8), Err(AllocError::Unsupported));
    assert_eq!(a.allocate(8, 8), Ok(0));
}

#[test]
fn exhausts_a_region_of_64_units() {
    let mut a = Allocator::new(64, 128);
    let r1 = a.allocate(16, 16).unwrap();
    let r2 = a.allocate(16, 16).unwrap();
    let r3 = a.allocate(16, 16).unwrap();
    let r4 = a.allocate(16, 16).unwrap();
    let mut got = [r1, r2, r3, r4];
    got.sort();
    assert_eq!(got, [64, 80, 96, 112]);
    assert_eq!(
        a.allocate(16, 16),
        Err(AllocError::Exhausted { size: 16, align: 16 })
    );
}

#[test]
fn multi_level_coalescing_over_1024_units() {
    let mut a = Allocator::new(0, 1024);
    let r1 = a.allocate(8, 8).unwrap();
    let r2 = a.allocate(8, 8).unwrap();
    let r3 = a.allocate(8, 8).unwrap();
    let r4 = a.allocate(8, 8).unwrap();
    let got = [r1, r2, r3, r4];
    for (i, &x) in got.iter().enumerate() {
        assert!(x % 8 == 0 && x < 1024);
        for &y in got[..i].iter() {
            assert_ne!(x, y);
        }
    }
    // free all four in a scrambled order
    a.dealloc(r2, 8, 8);
    a.dealloc(r4, 8, 8);
    a.dealloc(r1, 8, 8);
    a.dealloc(r3, 8, 8);
    // the freed span coalesces: a 32-unit request fits inside it
    let r5 = a.allocate(32, 8).unwrap();
    assert!(r5 < 32);
    assert_eq!(r5, 0);
}

#[test]
fn multi_level_coalescing_in_another_order() {
    let mut a = Allocator::new(0, 1024);
    let r1 = a.allocate(8, 8).unwrap();
    let r2 = a.allocate(8, 8).unwrap();
    let r3 = a.allocate(8, 8).unwrap();
    let r4 = a.allocate(8, 8).unwrap();
    a.dealloc(r1, 8, 8);
    a.dealloc(r2, 8, 8);
    a.dealloc(r3, 8, 8);
    a.dealloc(r4, 8, 8);
    let r5 = a.allocate(32, 8).unwrap();
    assert!(r5 < 32);
}

#[test]
fn round_trip_returns_the_same_address() {
    let mut a = Allocator::new(0, 1024);
    let r1 = a.allocate(64, 8).unwrap();
    a.dealloc(r1, 64, 8);
    assert_eq!(a.allocate(64, 8), Ok(r1));

    let mut b = Allocator::new(0, 1024);
    let s1 = b.allocate(8, 8).unwrap();
    let s2 = b.allocate(8, 8).unwrap();
    assert_ne!(s1, s2);
    b.dealloc(s2, 8, 8);
    assert_eq!(b.allocate(8, 8), Ok(s2));
}

#[test]
fn freed_buddies_merge_without_touching_larger_classes() {
    // [0, 96) seeds a 64-unit block at 0 and a 32-unit block at 64
    let mut a = Allocator::new(0, 96);
    let r1 = a.allocate(16, 16).unwrap();
    let r2 = a.allocate(16, 16).unwrap();
    assert_eq!(r1, 64);
    assert_eq!(r2, 80);
    // r1 and r2 are buddies; freeing both merges them back
    a.dealloc(r1, 16, 16);
    a.dealloc(r2, 16, 16);
    // the merged 32-unit block serves a doubled request directly
    assert_eq!(a.allocate(32, 32), Ok(64));
    // and the 64-unit block at 0 was never split for it
    assert_eq!(a.allocate(64, 64), Ok(0));
}

#[test]
fn freed_buddies_merge_in_the_other_order_too() {
    let mut a = Allocator::new(0, 96);
    let r1 = a.allocate(16, 16).unwrap();
    let r2 = a.allocate(16, 16).unwrap();
    a.dealloc(r2, 16, 16);
    a.dealloc(r1, 16, 16);
    assert_eq!(a.allocate(32, 32), Ok(64));
    assert_eq!(a.allocate(64, 64), Ok(0));
}

#[test]
fn covers_a_ragged_region_up_to_seven_units() {
    // [0, 71): 64 usable units, the ragged 7-unit tail is dropped
    let mut a = Allocator::new(0, 71);
    for _ in 0..8 {
        a.allocate(8, 8).unwrap();
    }
    assert_eq!(
        a.allocate(8, 8),
        Err(AllocError::Exhausted { size: 8, align: 8 })
    );
}

#[test]
fn covers_an_exact_region_completely() {
    let mut a = Allocator::new(0, 64);
    for _ in 0..8 {
        a.allocate(8, 8).unwrap();
    }
    assert!(a.allocate(8, 8).is_err());
}

#[test]
fn drops_an_oversized_deallocation_silently() {
    let mut a = Allocator::new(0, 64);
    // a size beyond the last class is dropped without effect
    a.dealloc(0, 1u64 << 40, 8);
    let r = a.allocate(64, 64);
    assert_eq!(r, Ok(0));
}

#[test]
fn large_alignment_is_honoured() {
    let mut a = Allocator::new(0, 1024);
    let r = a.allocate(8, 256).unwrap();
    assert_eq!(r % 256, 0);
    let s = a.allocate(8, 256).unwrap();
    assert_eq!(s % 256, 0);
    assert_ne!(r, s);
}

#[test]
fn empty_and_reversed_regions_serve_nothing() {
    let mut a = Allocator::new(100, 100);
    assert!(a.allocate(8, 8).is_err());
    let mut b = Allocator::new(200, 100);
    assert!(b.allocate(8, 8).is_err());
}
