use lilac::freelist::{find_first_fit, release, sort_by_start};
use lilac::span::{duplicate, end_exclusive, span_from};
use lilac::FreeBlock;

#[test]
fn span_of_a_start_and_a_size() {
    assert_eq!(span_from(0, 1), 0..0);
    assert_eq!(span_from(4, 4), 4..7);
    assert_eq!(span_from(u32::MAX - 3, 4), (u32::MAX - 3)..u32::MAX);
}

#[test]
fn slicing_bound_is_one_past_the_end() {
    assert_eq!(end_exclusive(&(4..7)), 8);
    assert_eq!(end_exclusive(&(0..0)), 1);
    let bytes = [10u8, 11, 12, 13, 14];
    let r = 1..3;
    assert_eq!(&bytes[r.start as usize..end_exclusive(&r)], &[11u8, 12, 13][..]);
}

#[test]
fn duplicate_is_the_same_span() {
    let r = 3..9;
    assert_eq!(duplicate(&r), 3..9);
}

#[test]
fn first_fit_is_the_first_entry_that_is_large_enough() {
    let list = vec![(8, 0..7), (4, 9..12), (16, 14..29)];
    assert_eq!(find_first_fit(&list, 4), Some(0));
    assert_eq!(find_first_fit(&list, 8), Some(0));
    assert_eq!(find_first_fit(&list, 9), Some(2));
    assert_eq!(find_first_fit(&list, 16), Some(2));
    assert_eq!(find_first_fit(&list, 17), None);
    let list = vec![(2, 20..21), (4, 9..12), (4, 0..3)];
    assert_eq!(find_first_fit(&list, 3), Some(1));
    assert_eq!(find_first_fit(&list, 1), Some(0));
    assert_eq!(find_first_fit(&Vec::new(), 1), None);
}

#[test]
fn sort_orders_by_start_offset() {
    let mut list = vec![(16, 14..29), (4, 9..12), (4, 4..7), (1, 0..0)];
    sort_by_start(&mut list);
    assert_eq!(list, vec![(1, 0..0), (4, 4..7), (4, 9..12), (16, 14..29)]);
    let mut one = vec![(3, 5..7)];
    sort_by_start(&mut one);
    assert_eq!(one, vec![(3, 5..7)]);
    let mut none: Vec<(u32, std::ops::Range<u32>)> = vec![];
    sort_by_start(&mut none);
    assert!(none.is_empty());
}

#[test]
fn release_without_a_neighbour() {
    let mut list = vec![(2, 20..21), (2, 0..1)];
    assert_eq!(release(&mut list, 10..12), FreeBlock::Free(3));
    assert_eq!(list, vec![(2, 0..1), (3, 10..12), (2, 20..21)]);
    let mut empty = vec![];
    assert_eq!(release(&mut empty, 0..0), FreeBlock::Free(1));
    assert_eq!(empty, vec![(1, 0..0)]);
}

#[test]
fn release_next_to_the_left_neighbour() {
    let mut list = vec![(2, 20..21), (2, 8..9), (2, 0..1)];
    assert_eq!(release(&mut list, 10..12), FreeBlock::FreeMerge(5));
    assert_eq!(list, vec![(2, 0..1), (5, 8..12), (2, 20..21)]);
}

#[test]
fn release_next_to_the_right_neighbour() {
    let mut list = vec![(2, 25..26), (7, 13..19), (2, 0..1)];
    assert_eq!(release(&mut list, 10..12), FreeBlock::FreeMerge(10));
    assert_eq!(list, vec![(2, 0..1), (10, 10..19), (2, 25..26)]);
}

#[test]
fn release_between_two_neighbours() {
    let mut list = vec![(3, 13..15), (6, 4..9), (2, 0..1), (1, 30..30)];
    assert_eq!(release(&mut list, 10..12), FreeBlock::FreeMerge(12));
    assert_eq!(list, vec![(2, 0..1), (12, 4..15), (1, 30..30)]);
}
