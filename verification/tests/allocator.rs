use lilac::{AllocError, Allocator, FreeBlock, MemRange, ProcBuilder, Process};

fn live_bytes(a: &Allocator, starts: &[u32]) -> usize {
    let mut sum = 0usize;
    for s in starts {
        if let Some(m) = a.record(*s) {
            sum += (m.range.end - m.range.start + 1) as usize;
        }
    }
    sum
}

fn free_bytes(a: &Allocator) -> usize {
    a.free_list().iter().map(|e| e.0 as usize).sum()
}

#[test]
fn new_allocator_is_empty() {
    let a = Allocator::new();
    assert_eq!(a.arena_len(), 0);
    assert!(a.free_list().is_empty());
    assert!(a.arena().is_empty());
    let d = Allocator::default();
    assert_eq!(d.arena_len(), 0);
}

#[test]
fn register_creates_an_empty_ledger_entry() {
    let mut a = Allocator::new();
    let p = Process::from_le_bytes([7, 0, 0, 0]);
    assert!(!a.is_registered(p));
    assert_eq!(a.register_process(p), Ok(()));
    assert!(a.is_registered(p));
    assert_eq!(a.held(p), Some(vec![]));
    assert_eq!(a.arena_len(), 0);
    assert!(a.free_list().is_empty());
}

#[test]
fn register_twice_is_refused() {
    let mut a = Allocator::new();
    let p = Process::from_le_bytes([1, 0, 0, 0]);
    assert_eq!(a.register_process(p), Ok(()));
    assert_eq!(a.register_process(p), Err(AllocError::AlreadyRegistered));
    assert_eq!(a.held(p), Some(vec![]));
}

#[test]
fn allocate_for_unknown_process_is_refused() {
    let mut a = Allocator::new();
    let p = Process::from_le_bytes([1, 0, 0, 0]);
    assert_eq!(a.allocate(p, 4), Err(AllocError::NoSuchProcess));
    assert_eq!(a.arena_len(), 0);
}

#[test]
fn allocate_zero_bytes_is_refused() {
    let mut a = Allocator::new();
    let p = Process::from_le_bytes([1, 0, 0, 0]);
    a.register_process(p).unwrap();
    assert_eq!(a.allocate(p, 0), Err(AllocError::ZeroSize));
    assert_eq!(a.arena_len(), 0);
    assert_eq!(a.held(p), Some(vec![]));
    let q = Process::from_le_bytes([2, 0, 0, 0]);
    assert_eq!(a.allocate(q, 0), Err(AllocError::NoSuchProcess));
}

#[test]
fn allocate_grows_the_arena_with_zero_bytes() {
    let mut a = Allocator::new();
    let p = Process::from_le_bytes([1, 0, 0, 0]);
    a.register_process(p).unwrap();
    assert_eq!(a.allocate(p, 4), Ok(0..3));
    assert_eq!(a.arena_len(), 4);
    assert_eq!(a.arena(), &[0u8, 0, 0, 0][..]);
    assert_eq!(a.allocate(p, 1), Ok(4..4));
    assert_eq!(a.arena_len(), 5);
    assert_eq!(a.held(p), Some(vec![0..3, 4..4]));
    let m = a.record(0).unwrap();
    assert_eq!(m.refcount, 1);
    assert_eq!(m.range, 0..3);
    assert!(a.record(1).is_none());
}

#[test]
fn live_ranges_never_overlap() {
    let mut a = Allocator::new();
    let p = Process::from_le_bytes([1, 0, 0, 0]);
    let q = Process::from_le_bytes([2, 0, 0, 0]);
    a.register_process(p).unwrap();
    a.register_process(q).unwrap();
    let mut live = vec![];
    live.push(a.allocate(p, 5).unwrap());
    live.push(a.allocate(q, 3).unwrap());
    let gone = a.allocate(p, 7).unwrap();
    live.push(a.allocate(q, 2).unwrap());
    a.free(p, gone.start).unwrap();
    live.push(a.allocate(q, 4).unwrap());
    live.push(a.allocate(p, 3).unwrap());
    live.push(a.allocate(p, 9).unwrap());
    for i in 0..live.len() {
        for j in (i + 1)..live.len() {
            assert!(live[i].end < live[j].start || live[j].end < live[i].start);
        }
    }
}

#[test]
fn arena_length_is_live_bytes_plus_free_bytes() {
    let mut a = Allocator::new();
    let p = Process::from_le_bytes([1, 0, 0, 0]);
    let q = Process::from_le_bytes([2, 0, 0, 0]);
    a.register_process(p).unwrap();
    a.register_process(q).unwrap();
    let mut starts = vec![];
    starts.push(a.allocate(p, 5).unwrap().start);
    starts.push(a.allocate(q, 3).unwrap().start);
    starts.push(a.allocate(p, 7).unwrap().start);
    assert_eq!(a.arena_len(), live_bytes(&a, &starts) + free_bytes(&a));
    a.share(p, q, 0).unwrap();
    assert_eq!(a.arena_len(), live_bytes(&a, &starts) + free_bytes(&a));
    a.free(p, 0).unwrap();
    assert_eq!(a.arena_len(), live_bytes(&a, &starts) + free_bytes(&a));
    a.free(q, 0).unwrap();
    assert_eq!(a.arena_len(), 15);
    assert_eq!(live_bytes(&a, &starts), 10);
    assert_eq!(free_bytes(&a), 5);
    assert_eq!(a.allocate(q, 2), Ok(0..1));
    assert_eq!(a.arena_len(), live_bytes(&a, &starts) + free_bytes(&a));
    assert_eq!(free_bytes(&a), 3);
    a.clean_process(p).unwrap();
    assert_eq!(free_bytes(&a), 10);
    assert_eq!(a.arena_len(), live_bytes(&a, &starts) + free_bytes(&a));
}

#[test]
fn last_of_the_holders_frees_the_block() {
    let mut a = Allocator::new();
    let owner = Process::from_le_bytes([0, 0, 0, 0]);
    a.register_process(owner).unwrap();
    let range = a.allocate(owner, 6).unwrap();
    let mut sharers = vec![];
    for n in 1..=3u8 {
        let s = Process::from_le_bytes([n, 0, 0, 0]);
        a.register_process(s).unwrap();
        assert_eq!(a.share(owner, s, range.start), Ok(()));
        sharers.push(s);
    }
    assert_eq!(a.record(range.start).unwrap().refcount, 4);
    assert_eq!(a.free(owner, range.start), Ok(FreeBlock::RefcountDecreased));
    assert_eq!(a.free(sharers[0], range.start), Ok(FreeBlock::RefcountDecreased));
    assert_eq!(a.free(sharers[1], range.start), Ok(FreeBlock::RefcountDecreased));
    assert_eq!(a.arena_len(), 6);
    assert!(a.free_list().is_empty());
    assert_eq!(a.record(range.start).unwrap().refcount, 1);
    assert_eq!(a.free(sharers[2], range.start), Ok(FreeBlock::Free(6)));
    assert!(a.record(range.start).is_none());
    assert_eq!(a.free_list(), vec![(6, 0..5)]);
}

#[test]
fn three_adjacent_blocks_coalesce_into_one() {
    let mut a = Allocator::new();
    let p = Process::from_le_bytes([1, 0, 0, 0]);
    a.register_process(p).unwrap();
    let first = a.allocate(p, 4).unwrap();
    let second = a.allocate(p, 4).unwrap();
    let third = a.allocate(p, 4).unwrap();
    assert_eq!((first.clone(), second.clone(), third.clone()), (0..3, 4..7, 8..11));
    assert_eq!(a.free(p, first.start), Ok(FreeBlock::Free(4)));
    assert_eq!(a.free(p, third.start), Ok(FreeBlock::Free(4)));
    assert_eq!(a.free_list(), vec![(4, 0..3), (4, 8..11)]);
    assert_eq!(a.free(p, second.start), Ok(FreeBlock::FreeMerge(12)));
    assert_eq!(a.free_list(), vec![(12, 0..11)]);
    assert_eq!(a.allocate(p, 6), Ok(0..5));
    assert_eq!(a.free_list(), vec![(6, 6..11)]);
}

#[test]
fn merge_reports_the_size_of_the_joined_block() {
    let mut a = Allocator::new();
    let p = Process::from_le_bytes([1, 0, 0, 0]);
    a.register_process(p).unwrap();
    a.allocate(p, 10).unwrap();
    let left = a.allocate(p, 3).unwrap();
    let right = a.allocate(p, 5).unwrap();
    a.allocate(p, 2).unwrap();
    assert_eq!(a.free(p, left.start), Ok(FreeBlock::Free(3)));
    assert_eq!(a.free(p, right.start), Ok(FreeBlock::FreeMerge(8)));
    assert_eq!(a.free_list(), vec![(8, 10..17)]);
}

#[test]
fn merge_with_the_right_neighbour_only() {
    let mut a = Allocator::new();
    let p = Process::from_le_bytes([1, 0, 0, 0]);
    a.register_process(p).unwrap();
    let left = a.allocate(p, 3).unwrap();
    let right = a.allocate(p, 5).unwrap();
    a.allocate(p, 2).unwrap();
    assert_eq!(a.free(p, right.start), Ok(FreeBlock::Free(5)));
    assert_eq!(a.free(p, left.start), Ok(FreeBlock::FreeMerge(8)));
    assert_eq!(a.free_list(), vec![(8, 0..7)]);
}

#[test]
fn free_list_is_ascending_after_a_free() {
    let mut a = Allocator::new();
    let p = Process::from_le_bytes([1, 0, 0, 0]);
    a.register_process(p).unwrap();
    let mut blocks = vec![];
    for _ in 0..7 {
        blocks.push(a.allocate(p, 2).unwrap());
    }
    assert_eq!(a.free(p, blocks[4].start), Ok(FreeBlock::Free(2)));
    assert_eq!(a.free(p, blocks[0].start), Ok(FreeBlock::Free(2)));
    assert_eq!(a.free(p, blocks[2].start), Ok(FreeBlock::Free(2)));
    assert_eq!(a.free_list(), vec![(2, 0..1), (2, 4..5), (2, 8..9)]);
    assert_eq!(a.free(p, blocks[6].start), Ok(FreeBlock::Free(2)));
    assert_eq!(a.free(p, blocks[5].start), Ok(FreeBlock::FreeMerge(6)));
    assert_eq!(a.free_list(), vec![(2, 0..1), (2, 4..5), (6, 8..13)]);
}

#[test]
fn borrow_across_two_blocks_is_refused() {
    let mut a = Allocator::new();
    let p = Process::from_le_bytes([1, 0, 0, 0]);
    a.register_process(p).unwrap();
    assert_eq!(a.allocate(p, 4), Ok(0..3));
    assert_eq!(a.allocate(p, 4), Ok(4..7));
    assert_eq!(a.range_borrow(p, 0..7), Err(AllocError::NotOwned));
    assert_eq!(a.range_borrow(p, 3..4), Err(AllocError::NotOwned));
    assert_eq!(a.range_borrow_mut(p, 0..7).err(), Some(AllocError::NotOwned));
    assert_eq!(a.range_borrow(p, 0..3), Ok(&[0u8, 0, 0, 0][..]));
    assert_eq!(a.range_borrow(p, 4..7), Ok(&[0u8, 0, 0, 0][..]));
    assert_eq!(a.range_borrow(p, 5..6), Ok(&[0u8, 0][..]));
}

#[test]
fn borrow_for_unknown_process_is_refused() {
    let mut a = Allocator::new();
    let p = Process::from_le_bytes([1, 0, 0, 0]);
    assert_eq!(a.range_borrow(p, 0..0), Err(AllocError::NoSuchProcess));
    assert_eq!(a.range_borrow_mut(p, 0..0).err(), Some(AllocError::NoSuchProcess));
}

#[test]
fn borrow_mut_writes_into_the_arena() {
    let mut a = Allocator::new();
    let p = Process::from_le_bytes([1, 0, 0, 0]);
    a.register_process(p).unwrap();
    a.allocate(p, 2).unwrap();
    let block = a.allocate(p, 4).unwrap();
    {
        let bytes = a.range_borrow_mut(p, block.clone()).unwrap();
        assert_eq!(bytes.len(), 4);
        bytes.copy_from_slice(&[1, 2, 3, 4]);
    }
    {
        let bytes = a.range_borrow_mut(p, 3..4).unwrap();
        bytes[0] = 9;
    }
    assert_eq!(a.arena(), &[0u8, 0, 1, 9, 3, 4][..]);
    assert_eq!(a.range_borrow(p, 3..5), Ok(&[9u8, 3, 4][..]));
}

#[test]
fn a_process_reaches_only_what_it_holds() {
    let mut a = Allocator::new();
    let pa = Process::from_le_bytes([1, 0, 0, 0]);
    let pb = Process::from_le_bytes([2, 0, 0, 0]);
    a.register_process(pa).unwrap();
    a.register_process(pb).unwrap();
    let block = a.allocate(pb, 4).unwrap();
    assert_eq!(a.free(pa, block.start), Err(AllocError::BlockNotFound));
    assert_eq!(a.free_clear(pa, block.start), Err(AllocError::BlockNotFound));
    assert_eq!(a.range_borrow(pa, block.clone()), Err(AllocError::NotOwned));
    assert_eq!(a.range_borrow_mut(pa, block.clone()).err(), Some(AllocError::NotOwned));
    assert_eq!(a.share(pa, pb, block.start), Err(AllocError::NotOwned));
    assert_eq!(a.record(block.start).unwrap().refcount, 1);
    assert_eq!(a.held(pb), Some(vec![0..3]));
    assert_eq!(a.share(pb, pa, block.start), Ok(()));
    assert_eq!(a.range_borrow(pa, block.clone()), Ok(&[0u8, 0, 0, 0][..]));
    assert_eq!(a.free(pa, block.start), Ok(FreeBlock::RefcountDecreased));
    assert_eq!(a.range_borrow(pa, block.clone()), Err(AllocError::NotOwned));
    assert_eq!(a.range_borrow(pb, block.clone()), Ok(&[0u8, 0, 0, 0][..]));
}

#[test]
fn shared_bytes_are_the_same_bytes() {
    let mut a = Allocator::new();
    let pa = Process::from_le_bytes([1, 0, 0, 0]);
    let pb = Process::from_le_bytes([2, 0, 0, 0]);
    a.register_process(pa).unwrap();
    a.register_process(pb).unwrap();
    let block = a.allocate(pa, 3).unwrap();
    a.share(pa, pb, block.start).unwrap();
    a.range_borrow_mut(pb, block.clone()).unwrap().copy_from_slice(&[5, 6, 7]);
    assert_eq!(a.range_borrow(pa, block.clone()), Ok(&[5u8, 6, 7][..]));
    assert_eq!(a.arena_len(), 3);
    assert!(a.free_list().is_empty());
}

#[test]
fn share_finds_the_record_that_holds_the_offset() {
    let mut a = Allocator::new();
    let pa = Process::from_le_bytes([1, 0, 0, 0]);
    let pb = Process::from_le_bytes([2, 0, 0, 0]);
    a.register_process(pa).unwrap();
    a.register_process(pb).unwrap();
    a.allocate(pa, 4).unwrap();
    a.allocate(pa, 4).unwrap();
    assert_eq!(a.share(pa, pb, 6), Ok(()));
    assert_eq!(a.held(pb), Some(vec![4..7]));
    assert_eq!(a.record(4).unwrap().refcount, 2);
    assert_eq!(a.record(0).unwrap().refcount, 1);
    assert_eq!(a.share(pa, pb, 8), Err(AllocError::NotOwned));
    assert_eq!(a.held(pb), Some(vec![4..7]));
}

#[test]
fn share_with_unknown_process_is_refused() {
    let mut a = Allocator::new();
    let pa = Process::from_le_bytes([1, 0, 0, 0]);
    let pb = Process::from_le_bytes([2, 0, 0, 0]);
    a.register_process(pa).unwrap();
    a.allocate(pa, 4).unwrap();
    assert_eq!(a.share(pa, pb, 0), Err(AllocError::NoSuchProcess));
    assert_eq!(a.share(pb, pa, 0), Err(AllocError::NoSuchProcess));
    assert_eq!(a.share(pb, pa, 100), Err(AllocError::NoSuchProcess));
    assert_eq!(a.record(0).unwrap().refcount, 1);
}

#[test]
fn free_of_unknown_process_or_block_is_refused() {
    let mut a = Allocator::new();
    let p = Process::from_le_bytes([1, 0, 0, 0]);
    assert_eq!(a.free(p, 0), Err(AllocError::NoSuchProcess));
    assert_eq!(a.free_clear(p, 0), Err(AllocError::NoSuchProcess));
    a.register_process(p).unwrap();
    assert_eq!(a.free(p, 0), Err(AllocError::BlockNotFound));
    a.allocate(p, 4).unwrap();
    assert_eq!(a.free(p, 1), Err(AllocError::BlockNotFound));
    assert_eq!(a.held(p), Some(vec![0..3]));
    assert_eq!(a.free(p, 0), Ok(FreeBlock::Free(4)));
    assert_eq!(a.free(p, 0), Err(AllocError::BlockNotFound));
}

#[test]
fn free_clear_zeroes_and_free_does_not() {
    let mut a = Allocator::new();
    let p = Process::from_le_bytes([1, 0, 0, 0]);
    a.register_process(p).unwrap();
    let x = a.allocate(p, 2).unwrap();
    let y = a.allocate(p, 2).unwrap();
    let z = a.allocate(p, 2).unwrap();
    a.range_borrow_mut(p, x.clone()).unwrap().copy_from_slice(&[1, 2]);
    a.range_borrow_mut(p, y.clone()).unwrap().copy_from_slice(&[3, 4]);
    a.range_borrow_mut(p, z.clone()).unwrap().copy_from_slice(&[5, 6]);
    assert_eq!(a.free(p, x.start), Ok(FreeBlock::Free(2)));
    assert_eq!(a.arena(), &[1u8, 2, 3, 4, 5, 6][..]);
    assert_eq!(a.free_clear(p, z.start), Ok(FreeBlock::Free(2)));
    assert_eq!(a.arena(), &[1u8, 2, 3, 4, 0, 0][..]);
}

#[test]
fn free_clear_of_a_shared_block_keeps_the_bytes() {
    let mut a = Allocator::new();
    let pa = Process::from_le_bytes([1, 0, 0, 0]);
    let pb = Process::from_le_bytes([2, 0, 0, 0]);
    a.register_process(pa).unwrap();
    a.register_process(pb).unwrap();
    let block = a.allocate(pa, 2).unwrap();
    a.range_borrow_mut(pa, block.clone()).unwrap().copy_from_slice(&[8, 9]);
    a.share(pa, pb, block.start).unwrap();
    assert_eq!(a.free_clear(pa, block.start), Ok(FreeBlock::RefcountDecreased));
    assert_eq!(a.arena(), &[8u8, 9][..]);
    assert_eq!(a.held(pa), Some(vec![]));
    assert_eq!(a.free_clear(pb, block.start), Ok(FreeBlock::Free(2)));
    assert_eq!(a.arena(), &[0u8, 0][..]);
}

#[test]
fn free_moves_the_last_entry_into_the_gap() {
    let mut a = Allocator::new();
    let p = Process::from_le_bytes([1, 0, 0, 0]);
    a.register_process(p).unwrap();
    a.allocate(p, 1).unwrap();
    a.allocate(p, 1).unwrap();
    a.allocate(p, 1).unwrap();
    a.free(p, 0).unwrap();
    assert_eq!(a.held(p), Some(vec![2..2, 1..1]));
}

#[test]
fn first_fit_takes_the_first_entry_that_is_large_enough() {
    let mut a = Allocator::new();
    let p = Process::from_le_bytes([1, 0, 0, 0]);
    a.register_process(p).unwrap();
    let eight = a.allocate(p, 8).unwrap();
    a.allocate(p, 1).unwrap();
    let four = a.allocate(p, 4).unwrap();
    a.allocate(p, 1).unwrap();
    let sixteen = a.allocate(p, 16).unwrap();
    a.allocate(p, 1).unwrap();
    a.free(p, sixteen.start).unwrap();
    a.free(p, four.start).unwrap();
    a.free(p, eight.start).unwrap();
    assert_eq!(a.free_list(), vec![(8, 0..7), (4, 9..12), (16, 14..29)]);
    assert_eq!(a.allocate(p, 4), Ok(0..3));
    assert_eq!(a.free_list(), vec![(16, 14..29), (4, 9..12), (4, 4..7)]);
    assert_eq!(a.arena_len(), 31);
}

#[test]
fn an_exact_fit_leaves_no_rest() {
    let mut a = Allocator::new();
    let p = Process::from_le_bytes([1, 0, 0, 0]);
    a.register_process(p).unwrap();
    let block = a.allocate(p, 4).unwrap();
    a.allocate(p, 1).unwrap();
    a.free(p, block.start).unwrap();
    assert_eq!(a.allocate(p, 4), Ok(0..3));
    assert!(a.free_list().is_empty());
    assert_eq!(a.allocate(p, 2), Ok(5..6));
    assert_eq!(a.arena_len(), 7);
}

#[test]
fn teardown_returns_what_only_the_process_held() {
    let mut a = Allocator::new();
    let pa = Process::from_le_bytes([1, 0, 0, 0]);
    let pb = Process::from_le_bytes([2, 0, 0, 0]);
    a.register_process(pa).unwrap();
    a.register_process(pb).unwrap();
    let own1 = a.allocate(pa, 4).unwrap();
    let theirs = a.allocate(pb, 4).unwrap();
    let own2 = a.allocate(pa, 4).unwrap();
    let gap = a.allocate(pb, 4).unwrap();
    a.share(pb, pa, theirs.start).unwrap();
    a.share(pa, pb, own2.start).unwrap();
    a.free(pb, gap.start).unwrap();
    assert_eq!(a.free_list(), vec![(4, 12..15)]);
    assert_eq!(a.clean_process(pa), Ok(()));
    assert!(!a.is_registered(pa));
    assert_eq!(a.held(pa), None);
    assert_eq!(a.free_list(), vec![(4, 0..3), (4, 12..15)]);
    assert!(a.record(own1.start).is_none());
    assert_eq!(a.record(theirs.start).unwrap().refcount, 1);
    assert_eq!(a.record(own2.start).unwrap().refcount, 1);
    assert_eq!(a.held(pb), Some(vec![4..7, 8..11]));
    assert_eq!(a.allocate(pa, 1), Err(AllocError::NoSuchProcess));
    assert_eq!(a.clean_process(pa), Err(AllocError::NoSuchProcess));
    assert_eq!(a.clean_process(pb), Ok(()));
    assert_eq!(a.free_list(), vec![(16, 0..15)]);
    assert_eq!(a.arena_len(), 16);
}

#[test]
fn teardown_of_a_process_that_holds_one_record_twice() {
    let mut a = Allocator::new();
    let p = Process::from_le_bytes([1, 0, 0, 0]);
    a.register_process(p).unwrap();
    let block = a.allocate(p, 4).unwrap();
    a.share(p, p, block.start).unwrap();
    assert_eq!(a.held(p), Some(vec![0..3, 0..3]));
    assert_eq!(a.record(0).unwrap().refcount, 2);
    assert_eq!(a.clean_process(p), Ok(()));
    assert!(a.record(0).is_none());
    assert_eq!(a.free_list(), vec![(4, 0..3)]);
}

#[test]
fn teardown_of_an_empty_process_leaves_the_free_list() {
    let mut a = Allocator::new();
    let pa = Process::from_le_bytes([1, 0, 0, 0]);
    let pb = Process::from_le_bytes([2, 0, 0, 0]);
    a.register_process(pa).unwrap();
    a.register_process(pb).unwrap();
    let x = a.allocate(pa, 8).unwrap();
    a.allocate(pa, 1).unwrap();
    let y = a.allocate(pa, 8).unwrap();
    a.allocate(pa, 1).unwrap();
    a.free(pa, y.start).unwrap();
    a.free(pa, x.start).unwrap();
    a.allocate(pa, 2).unwrap();
    let before = a.free_list();
    assert_eq!(before, vec![(8, 9..16), (6, 2..7)]);
    assert_eq!(a.clean_process(pb), Ok(()));
    assert_eq!(a.free_list(), before);
}

#[test]
fn builder_counts_from_zero() {
    let mut b = ProcBuilder::new();
    let p0 = b.count();
    let p1 = b.count();
    let p2 = b.count();
    assert_eq!((p0.id(), p1.id(), p2.id()), (0, 1, 2));
    assert_ne!(p0, p1);
    let mut d = ProcBuilder::default();
    assert_eq!(d.count().id(), 0);
}

#[test]
fn builder_draws_without_counting() {
    let mut b = ProcBuilder::new();
    let first = b.xorshift();
    let second = b.xorshift();
    let mut a = Allocator::new();
    assert_eq!(a.register_process(first), Ok(()));
    if second != first {
        assert_eq!(a.register_process(second), Ok(()));
    }
    assert_eq!(b.count().id(), 0);
    let mut copy = b;
    assert_eq!(copy.count().id(), 1);
    assert_eq!(b.count().id(), 1);
}

#[test]
fn identifier_from_little_endian_bytes() {
    assert_eq!(Process::from_le_bytes([0x78, 0x56, 0x34, 0x12]).id(), 0x1234_5678);
    assert_eq!(Process::from_le_bytes([0xff, 0xff, 0xff, 0xff]).id(), u32::MAX);
    assert_eq!(Process::from_le_bytes([0, 1, 0, 0]).id(), 256);
    assert_eq!(Process::from_le_bytes([1, 2, 3, 4]).id(), u32::from_le_bytes([1, 2, 3, 4]));
    assert_eq!(Process::from_le_bytes([1, 0, 0, 0]), Process(1));
}

#[test]
fn record_constructor_keeps_its_arguments() {
    let m = MemRange::new(3, 4..9);
    assert_eq!(m.refcount, 3);
    assert_eq!(m.range, 4..9);
    let c = m.clone();
    assert_eq!(c.refcount, 3);
    assert_eq!(c.range, 4..9);
}

#[test]
fn error_messages() {
    assert_eq!(AllocError::AlreadyRegistered.message(), "this process id is already registered");
    assert_eq!(AllocError::NoSuchProcess.message(), "the given process id does not exist");
    assert_eq!(AllocError::NotOwned.message(), "the memory range is not owned by the process");
    assert_eq!(
        AllocError::BlockNotFound.message(),
        "the block at the given start address was not found for this process"
    );
    assert_eq!(AllocError::ZeroSize.message(), "an allocation must have at least one byte");
}
