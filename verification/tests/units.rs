use buddy_alloc::add_one;
use buddy_alloc::arith::{check_power_of_two, class_block_size, find_size_class};
use buddy_alloc::free_list::FreeList;
use buddy_alloc::rect::Rectangle;

#[test]
fn free_list_is_lifo() {
    let mut l = FreeList::new();
    assert_eq!(l.len(), 0);
    assert_eq!(l.pop(), None);
    l.push(8);
    l.push(16);
    l.push(24);
    assert_eq!(l.len(), 3);
    assert_eq!(l.pop(), Some(24));
    assert_eq!(l.pop(), Some(16));
    assert_eq!(l.pop(), Some(8));
    assert_eq!(l.pop(), None);
}

#[test]
fn free_list_removes_the_fit_nearest_the_head() {
    let mut l = FreeList::new();
    l.push(8);
    l.push(12);
    l.push(16);
    assert_eq!(l.remove_aligned(8), Some(16));
    assert_eq!(l.remove_aligned(8), Some(8));
    assert_eq!(l.remove_aligned(8), None);
    assert_eq!(l.len(), 1);
    assert!(l.remove_addr(12));
    assert!(!l.remove_addr(12));
    assert_eq!(l.len(), 0);
}

#[test]
fn power_of_two_check() {
    assert!(check_power_of_two(1));
    assert!(check_power_of_two(2));
    assert!(check_power_of_two(1024));
    assert!(check_power_of_two(1u64 << 34));
    assert!(!check_power_of_two(0));
    assert!(!check_power_of_two(3));
    assert!(!check_power_of_two(12));
    assert!(!check_power_of_two(u64::MAX));
}

#[test]
fn size_classes_round_up_to_powers_of_two() {
    assert_eq!(find_size_class(1), 0);
    assert_eq!(find_size_class(8), 0);
    assert_eq!(find_size_class(9), 1);
    assert_eq!(find_size_class(16), 1);
    assert_eq!(find_size_class(17), 2);
    assert_eq!(find_size_class(1024), 7);
    assert_eq!(find_size_class(1u64 << 34), 31);
    assert_eq!(find_size_class((1u64 << 34) + 1), 32);
    assert_eq!(find_size_class(u64::MAX), 32);
}

#[test]
fn class_block_sizes() {
    assert_eq!(class_block_size(0), 8);
    assert_eq!(class_block_size(1), 16);
    assert_eq!(class_block_size(7), 1024);
    assert_eq!(class_block_size(31), 1u64 << 34);
}

#[test]
fn add_one_accepts_only_one() {
    assert_eq!(add_one(1), Ok(2));
    assert_eq!(add_one(3), Err(1));
    assert_eq!(add_one(0), Err(1));
}

#[test]
fn rectangle_area_and_containment() {
    let rect = Rectangle { width: 30, length: 50 };
    let rect1 = Rectangle { width: 40, length: 50 };
    assert_eq!(rect.area(), 1500);
    assert_eq!(rect1.area(), 2000);
    assert!(rect1.can_hold(&rect));
    assert!(!rect.can_hold(&rect1));
    assert!(!rect.can_hold(&rect));
}
