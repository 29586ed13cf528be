//! The allocator engine: the arena, the per-process ledger, the shared
//! range records and the free list, with the operations that keep them
//! consistent.

use crate::freelist::{
    entry_holds, entry_ok, find_first_fit, first_fit, fits, release, FreeEntry,
};
use crate::model::{
    block_at, enclosing, holding, lemma_allocated_wf, lemma_cover_size, lemma_dropped_wf,
    lemma_empty_wf, lemma_released_wf, lemma_rewritten_wf, lemma_shared_wf,
    lemma_teardown_done, lemma_teardown_start, lemma_teardown_step, lemma_with_process_wf,
    position, rest_of, starts_at, zeroed, zeros, AllocatorView,
};
use crate::search::{first_index, lemma_first_index, lemma_first_index_is};
use crate::span::{contains, duplicate, end_exclusive, holds, len, span_from, valid};
use crate::types::{AllocError, FreeBlock, MemRange, Process};
use std::collections::HashMap;
use std::ops::Range;
use vstd::prelude::*;
use vstd::std_specs::hash::group_hash_axioms;

verus! {

/// A byte arena shared by several processes.
pub struct Allocator {
    heap: Vec<u8>,
    allocated: HashMap<u32, Vec<Range<u32>>>,
    records: HashMap<u32, MemRange>,
    free: Vec<FreeEntry>,
}

impl View for Allocator {
    type V = AllocatorView;

    closed spec fn view(&self) -> AllocatorView {
        AllocatorView {
            arena: self.heap@,
            ledger: Map::new(
                |p: Process| self.allocated@.contains_key(p.0),
                |p: Process| self.allocated@[p.0]@,
            ),
            records: self.records@,
            free: self.free@,
        }
    }
}

impl Allocator {
    /// The invariant holds of the allocator's state.
    pub open spec fn wf(&self) -> bool {
        self@.wf()
    }

    /// Creates an allocator with an empty arena and no process.
    pub fn new() -> (a: Allocator)
        ensures
            a.wf(),
            a@ == AllocatorView::empty(),
    {
        let a = Allocator {
            heap: Vec::new(),
            allocated: HashMap::new(),
            records: HashMap::new(),
            free: Vec::new(),
        };
        proof {
            lemma_empty_wf();
            assert(a@.ledger =~= Map::<Process, Seq<Range<u32>>>::empty());
            assert(a@ =~= AllocatorView::empty());
        }
        a
    }

    /// Registers a process that is not yet known. The arena and the free
    /// list are left alone.
    pub fn register_process(&mut self, process_id: Process) -> (res: Result<(), AllocError>)
        requires
            old(self).wf(),
        ensures
            final(self).wf(),
            match res {
                Ok(_) => !old(self)@.ledger.contains_key(process_id) && final(self)@ == old(
                    self,
                )@.with_process(process_id),
                Err(e) => e == AllocError::AlreadyRegistered && old(self)@.ledger.contains_key(
                    process_id,
                ) && final(self)@ == old(self)@,
            },
    {
        broadcast use group_hash_axioms;

        if self.allocated.contains_key(&process_id.0) {
            return Err(AllocError::AlreadyRegistered);
        }
        self.allocated.insert(process_id.0, Vec::new());
        proof {
            assert(self@.ledger =~= old(self)@.ledger.insert(process_id, Seq::empty()));
            assert(self@ =~= old(self)@.with_process(process_id));
            lemma_with_process_wf(old(self)@, process_id);
        }
        Ok(())
    }

    /// Appends `range` to the entries of a registered process.
    fn hold(&mut self, process_id: Process, range: Range<u32>)
        requires
            old(self)@.ledger.contains_key(process_id),
        ensures
            final(self)@ == (AllocatorView {
                ledger: old(self)@.ledger.insert(
                    process_id,
                    old(self)@.ledger[process_id].push(range),
                ),
                ..old(self)@
            }),
    {
        broadcast use group_hash_axioms;

        let mut held = self.allocated.remove(&process_id.0).unwrap();
        held.push(range);
        self.allocated.insert(process_id.0, held);
        assert(self@.ledger =~= old(self)@.ledger.insert(
            process_id,
            old(self)@.ledger[process_id].push(range),
        ));
    }

    /// Gives the registered process a first reference to `range`.
    fn grant(&mut self, process_id: Process, range: Range<u32>)
        requires
            old(self)@.ledger.contains_key(process_id),
        ensures
            final(self)@ == old(self)@.granted(process_id, range),
    {
        self.hold(process_id, duplicate(&range));
        self.records.insert(range.start, MemRange::new(1, range));
    }

    /// Grows the arena by `size` zero bytes and gives them to the process.
    fn alloc_new(&mut self, process_id: Process, size: u32) -> (range: Range<u32>)
        requires
            old(self)@.ledger.contains_key(process_id),
            size > 0,
            old(self)@.arena.len() + size <= u32::MAX,
        ensures
            range == block_at(old(self)@.arena.len() as int, size),
            final(self)@ == old(self)@.grown(process_id, size),
    {
        let last_elem: u32 = self.heap.len() as u32;
        let mut added: u32 = 0;
        while added < size
            invariant
                added <= size,
                self.heap@ == old(self).heap@ + zeros(added as nat),
                self.allocated == old(self).allocated,
                self.records == old(self).records,
                self.free == old(self).free,
            decreases size - added,
        {
            self.heap.push(0);
            added += 1;
        }
        let range = span_from(last_elem, size);
        let given = duplicate(&range);
        proof {
            assert(self@ =~= (AllocatorView {
                arena: old(self)@.arena + zeros(size as nat),
                ..old(self)@
            }));
        }
        self.grant(process_id, given);
        range
    }

    /// Gives the process the first `size` bytes of free entry `index`; what
    /// is left of the entry goes back to the free list.
    fn alloc_free(&mut self, process_id: Process, size: u32, index: usize) -> (range: Range<u32>)
        requires
            old(self).wf(),
            old(self)@.ledger.contains_key(process_id),
            size > 0,
            index < old(self)@.free.len(),
            old(self)@.free[index as int].0 >= size,
        ensures
            range == block_at(old(self)@.free[index as int].1.start as int, size),
            final(self)@ == old(self)@.carved(process_id, index as int, size),
    {
        let free = self.free.swap_remove(index);
        assert(entry_ok(free));
        let start: u32 = free.1.start;
        let end: u32 = start + (size - 1);
        let new_cap: u32 = free.0 - size;
        if new_cap != 0 {
            let start_of_rest: u32 = end + 1;
            let end_of_rest: u32 = free.1.end;
            self.free.push((new_cap, start_of_rest..end_of_rest));
        }
        proof {
            let v = old(self)@;
            let i = index as int;
            assert(self.free@ =~= v.free.update(i, v.free.last()).drop_last() + rest_of(
                v.free[i],
                size,
            ));
            assert(self@ =~= (AllocatorView { free: self.free@, ..v }));
        }
        self.grant(process_id, start..end);
        start..end
    }

    /// Allocates `size` bytes to a registered process.
    ///
    /// The free list is searched in order for the first entry that is large
    /// enough; where there is none the arena grows by `size` zero bytes.
    /// The returned range starts at the offset by which the block is later
    /// freed.
    pub fn allocate(&mut self, process_id: Process, size: u32) -> (res: Result<Range<u32>, AllocError>)
        requires
            old(self).wf(),
            old(self)@.ledger.contains_key(process_id) && size > 0 && first_fit(
                old(self)@.free,
                size,
            ) == old(self)@.free.len() ==> old(self)@.arena.len() + size <= u32::MAX,
        ensures
            final(self).wf(),
            match res {
                Ok(range) => {
                    &&& old(self)@.ledger.contains_key(process_id)
                    &&& size > 0
                    &&& range == old(self)@.allocation(size)
                    &&& final(self)@ == old(self)@.allocated(process_id, size)
                },
                Err(e) => {
                    &&& final(self)@ == old(self)@
                    &&& e == if !old(self)@.ledger.contains_key(process_id) {
                        AllocError::NoSuchProcess
                    } else {
                        AllocError::ZeroSize
                    }
                    &&& !old(self)@.ledger.contains_key(process_id) || size == 0
                },
            },
    {
        broadcast use group_hash_axioms;

        if !self.allocated.contains_key(&process_id.0) {
            return Err(AllocError::NoSuchProcess);
        }
        if size == 0 {
            return Err(AllocError::ZeroSize);
        }
        proof {
            lemma_first_index(self@.free, fits(size));
            lemma_allocated_wf(self@, process_id, size);
        }
        match find_first_fit(&self.free, size) {
            Some(index) => Ok(self.alloc_free(process_id, size, index)),
            None => Ok(self.alloc_new(process_id, size)),
        }
    }

    /// Drops the process's reference to the block that starts at
    /// `start_idx`; the last holder returns the bytes to the free list,
    /// zeroed first if `zeroize` asks so.
    fn free_inner(&mut self, process_id: Process, start_idx: u32, zeroize: bool) -> (res: Result<
        FreeBlock,
        AllocError,
    >)
        requires
            old(self).wf(),
        ensures
            final(self).wf(),
            old(self)@.freed(process_id, start_idx, zeroize, final(self)@, res),
    {
        broadcast use group_hash_axioms;

        let ghost v = self@;
        let found = match self.allocated.get(&process_id.0) {
            None => {
                return Err(AllocError::NoSuchProcess);
            },
            Some(held) => find_entry(held, start_idx),
        };
        let index = match found {
            None => {
                return Err(AllocError::BlockNotFound);
            },
            Some(index) => index,
        };
        let ghost i = index as int;
        let ghost r = v.ledger[process_id][i];
        proof {
            assert(v.live(r));
            assert(v.records.contains_key(r.start));
            assert(v.record_ok(r.start));
        }
        let mut held = self.allocated.remove(&process_id.0).unwrap();
        let block = held.swap_remove(index);
        self.allocated.insert(process_id.0, held);
        assert(self@.ledger =~= v.ledger_without(process_id, i));
        let refcount: u32 = self.records.get(&start_idx).unwrap().refcount;
        if refcount > 1 {
            self.records.insert(start_idx, MemRange::new(refcount - 1, block));
            proof {
                assert(self@ =~= v.dropped(process_id, i));
                lemma_dropped_wf(v, process_id, i);
            }
            return Ok(FreeBlock::RefcountDecreased);
        }
        self.records.remove(&start_idx);
        if zeroize {
            clear_bytes(&mut self.heap, &block);
        }
        let outcome = release(&mut self.free, block);
        proof {
            let w = self@;
            assert(w.records =~= v.records.remove(r.start));
            assert(v.released(process_id, i, zeroize, w));
            lemma_released_wf(v, process_id, i, zeroize, w);
            if let FreeBlock::FreeMerge(n) = outcome {
                let j = choose|j: int|
                    0 <= j < w.free.len() && (#[trigger] w.free[j]).0 == n
                        && contains(w.free[j].1, r);
                assert(entry_holds(w.free[j], r.start as int));
                lemma_cover_size(w.free, r.start as int, j);
            }
        }
        Ok(outcome)
    }

    /// Frees the block of a process that starts at `start_idx`; the bytes
    /// are left as they are.
    ///
    /// The process always loses its entry. The bytes return to the free
    /// list only when no other holder remains.
    pub fn free(&mut self, process_id: Process, start_idx: u32) -> (res: Result<
        FreeBlock,
        AllocError,
    >)
        requires
            old(self).wf(),
        ensures
            final(self).wf(),
            old(self)@.freed(process_id, start_idx, false, final(self)@, res),
    {
        self.free_inner(process_id, start_idx, false)
    }

    /// Frees the block of a process that starts at `start_idx`; the bytes
    /// are set to zero when they return to the free list.
    pub fn free_clear(&mut self, process_id: Process, start_idx: u32) -> (res: Result<
        FreeBlock,
        AllocError,
    >)
        requires
            old(self).wf(),
        ensures
            final(self).wf(),
            old(self)@.freed(process_id, start_idx, true, final(self)@, res),
    {
        self.free_inner(process_id, start_idx, true)
    }

    /// Lends the bytes of `range` to a process that holds them within a
    /// single record. Two adjacent blocks of one process do not make one
    /// range: a request that spans both is refused.
    pub fn range_borrow(&self, process_id: Process, range: Range<u32>) -> (res: Result<
        &[u8],
        AllocError,
    >)
        requires
            self.wf(),
            valid(range),
        ensures
            match res {
                Ok(bytes) => {
                    &&& self@.ledger.contains_key(process_id)
                    &&& first_index(self@.ledger[process_id], enclosing(range))
                        < self@.ledger[process_id].len()
                    &&& bytes@ == self@.bytes_of(range)
                },
                Err(e) => if !self@.ledger.contains_key(process_id) {
                    e == AllocError::NoSuchProcess
                } else {
                    &&& e == AllocError::NotOwned
                    &&& first_index(self@.ledger[process_id], enclosing(range))
                        == self@.ledger[process_id].len()
                },
            },
    {
        broadcast use group_hash_axioms;

        let found = match self.allocated.get(&process_id.0) {
            None => {
                return Err(AllocError::NoSuchProcess);
            },
            Some(held) => find_enclosing(held, &range),
        };
        let index = match found {
            None => {
                return Err(AllocError::NotOwned);
            },
            Some(index) => index,
        };
        proof {
            let r = self@.ledger[process_id][index as int];
            assert(self@.live(r));
            assert(self@.records.contains_key(r.start));
            assert(self@.record_ok(r.start));
        }
        let from: usize = range.start as usize;
        let to: usize = end_exclusive(&range);
        Ok(vstd::slice::slice_subrange(self.heap.as_slice(), from, to))
    }

    /// Lends the bytes of `range` for writing to a process that holds them
    /// within a single record. What the caller writes becomes the content
    /// of the arena at `range`; nothing else changes.
    pub fn range_borrow_mut(&mut self, process_id: Process, range: Range<u32>) -> (res: Result<
        &mut [u8],
        AllocError,
    >)
        requires
            old(self).wf(),
            valid(range),
        ensures
            match res {
                Ok(bytes) => {
                    &&& old(self)@.ledger.contains_key(process_id)
                    &&& first_index(old(self)@.ledger[process_id], enclosing(range)) < old(
                        self,
                    )@.ledger[process_id].len()
                    &&& bytes@ == old(self)@.bytes_of(range)
                    &&& final(self)@ == old(self)@.rewritten(range, final(bytes)@)
                    &&& final(bytes)@.len() == bytes@.len() ==> final(self).wf()
                },
                Err(e) => {
                    &&& final(self)@ == old(self)@
                    &&& if !old(self)@.ledger.contains_key(process_id) {
                        e == AllocError::NoSuchProcess
                    } else {
                        &&& e == AllocError::NotOwned
                        &&& first_index(old(self)@.ledger[process_id], enclosing(range)) == old(
                            self,
                        )@.ledger[process_id].len()
                    }
                },
            },
    {
        broadcast use group_hash_axioms;

        let found = match self.allocated.get(&process_id.0) {
            None => {
                return Err(AllocError::NoSuchProcess);
            },
            Some(held) => find_enclosing(held, &range),
        };
        let index = match found {
            None => {
                return Err(AllocError::NotOwned);
            },
            Some(index) => index,
        };
        proof {
            let r = self@.ledger[process_id][index as int];
            assert(self@.live(r));
            assert(self@.records.contains_key(r.start));
            assert(self@.record_ok(r.start));
        }
        let from: usize = range.start as usize;
        let to: usize = end_exclusive(&range);
        let whole = self.heap.as_mut_slice();
        let (_, tail) = whole.split_at_mut(from);
        let (bytes, _) = tail.split_at_mut(to - from);
        proof {
            let v = old(self)@;
            assert(bytes@ =~= v.bytes_of(range));
            assert forall|b: Seq<u8>| b.len() == len(range) implies (#[trigger] v.rewritten(
                range,
                b,
            )).wf() by {
                lemma_rewritten_wf(v, range, b);
            }
        }
        Ok(bytes)
    }

    /// Gives `target_process` a reference to the record of `source_process`
    /// that holds offset `start_idx`. Both processes then reach the same
    /// bytes; nothing is copied.
    pub fn share(&mut self, source_process: Process, target_process: Process, start_idx: u32) -> (res:
        Result<(), AllocError>)
        requires
            old(self).wf(),
            ({
                let held = old(self)@.ledger[source_process];
                let i = first_index(held, holding(start_idx));
                old(self)@.ledger.contains_key(source_process) && old(self)@.ledger.contains_key(
                    target_process,
                ) && i < held.len() ==> old(self)@.records[held[i].start].refcount < u32::MAX
            }),
        ensures
            final(self).wf(),
            match res {
                Ok(_) => {
                    let held = old(self)@.ledger[source_process];
                    let i = first_index(held, holding(start_idx));
                    &&& old(self)@.ledger.contains_key(source_process)
                    &&& old(self)@.ledger.contains_key(target_process)
                    &&& i < held.len()
                    &&& final(self)@ == old(self)@.shared(target_process, held[i])
                },
                Err(e) => {
                    &&& final(self)@ == old(self)@
                    &&& if !old(self)@.ledger.contains_key(source_process) || !old(
                        self,
                    )@.ledger.contains_key(target_process) {
                        e == AllocError::NoSuchProcess
                    } else {
                        &&& e == AllocError::NotOwned
                        &&& first_index(old(self)@.ledger[source_process], holding(start_idx))
                            == old(self)@.ledger[source_process].len()
                    }
                },
            },
    {
        broadcast use group_hash_axioms;

        if !self.allocated.contains_key(&target_process.0) {
            return Err(AllocError::NoSuchProcess);
        }
        let found = match self.allocated.get(&source_process.0) {
            None => {
                return Err(AllocError::NoSuchProcess);
            },
            Some(held) => match find_holding(held, start_idx) {
                None => None,
                Some(index) => Some(duplicate(&held[index])),
            },
        };
        let range = match found {
            None => {
                return Err(AllocError::NotOwned);
            },
            Some(range) => range,
        };
        let ghost v = self@;
        proof {
            let i = first_index(v.ledger[source_process], holding(start_idx));
            assert(range == v.ledger[source_process][i]);
            assert(v.live(v.ledger[source_process][i]));
            assert(v.records.contains_key(range.start));
            assert(v.record_ok(range.start));
        }
        let refcount: u32 = self.records.get(&range.start).unwrap().refcount;
        self.hold(target_process, duplicate(&range));
        self.records.insert(range.start, MemRange::new(refcount + 1, range));
        proof {
            lemma_shared_wf(v, target_process, range);
        }
        Ok(())
    }

    /// Number of bytes in the arena.
    pub fn arena_len(&self) -> (n: usize)
        ensures
            n == self@.arena.len(),
    {
        self.heap.len()
    }

    /// The whole arena, for reading.
    pub fn arena(&self) -> (bytes: &[u8])
        ensures
            bytes@ == self@.arena,
    {
        self.heap.as_slice()
    }

    /// The free list, in list order.
    pub fn free_list(&self) -> (list: Vec<FreeEntry>)
        ensures
            list@ == self@.free,
    {
        let mut list: Vec<FreeEntry> = Vec::new();
        let mut i: usize = 0;
        while i < self.free.len()
            invariant
                i <= self.free@.len(),
                list@ == self.free@.take(i as int),
            decreases self.free@.len() - i,
        {
            list.push((self.free[i].0, duplicate(&self.free[i].1)));
            assert(list@ =~= self.free@.take(i + 1));
            i += 1;
        }
        assert(list@ =~= self.free@);
        list
    }

    /// Whether the process is a key of the ledger.
    pub fn is_registered(&self, process_id: Process) -> (known: bool)
        ensures
            known == self@.ledger.contains_key(process_id),
    {
        broadcast use group_hash_axioms;

        self.allocated.contains_key(&process_id.0)
    }

    /// The ranges that the process holds, in ledger order.
    pub fn held(&self, process_id: Process) -> (held: Option<Vec<Range<u32>>>)
        ensures
            match held {
                Some(list) => self@.ledger.contains_key(process_id) && list@
                    == self@.ledger[process_id],
                None => !self@.ledger.contains_key(process_id),
            },
    {
        broadcast use group_hash_axioms;

        match self.allocated.get(&process_id.0) {
            Some(list) => Some(copy_ranges(list)),
            None => None,
        }
    }

    /// The shared range record that starts at `start`, if one is live.
    pub fn record(&self, start: u32) -> (record: Option<MemRange>)
        ensures
            match record {
                Some(m) => self@.records.contains_key(start) && m == self@.records[start],
                None => !self@.records.contains_key(start),
            },
    {
        broadcast use group_hash_axioms;

        match self.records.get(&start) {
            Some(m) => Some(m.clone()),
            None => None,
        }
    }

    /// Tears a process down: every entry of its ledger is freed, as the
    /// ledger stood at the call, and the process leaves the ledger.
    pub fn clean_process(&mut self, process_id: Process) -> (res: Result<(), AllocError>)
        requires
            old(self).wf(),
        ensures
            final(self).wf(),
            match res {
                Ok(_) => old(self)@.ledger.contains_key(process_id) && old(self)@.torn_down(
                    process_id,
                    final(self)@,
                ),
                Err(e) => e == AllocError::NoSuchProcess && !old(self)@.ledger.contains_key(
                    process_id,
                ) && final(self)@ == old(self)@,
            },
    {
        broadcast use group_hash_axioms;

        let snapshot = match self.allocated.get(&process_id.0) {
            None => {
                return Err(AllocError::NoSuchProcess);
            },
            Some(held) => copy_ranges(held),
        };
        let ghost v = self@;
        proof {
            lemma_teardown_start(v, process_id);
        }
        let mut i: usize = 0;
        while i < snapshot.len()
            invariant
                i <= snapshot@.len(),
                snapshot@ == v.ledger[process_id],
                v.wf(),
                v.ledger.contains_key(process_id),
                self.wf(),
                v.torn_partly(process_id, i as int, self@),
            decreases snapshot@.len() - i,
        {
            let ghost cur = self@;
            let freed = self.free(process_id, snapshot[i].start);
            proof {
                lemma_teardown_step(v, process_id, i as int, cur, self@, freed);
            }
            if let Err(e) = freed {
                return Err(e);
            }
            i += 1;
        }
        let ghost cur = self@;
        self.allocated.remove(&process_id.0);
        proof {
            lemma_teardown_done(v, process_id, cur);
            assert(self@.ledger =~= cur.ledger.remove(process_id));
            assert(self@ =~= (AllocatorView { ledger: cur.ledger.remove(process_id), ..cur }));
        }
        Ok(())
    }
}

/// A copy of the list, entry by entry.
fn copy_ranges(held: &Vec<Range<u32>>) -> (copy: Vec<Range<u32>>)
    ensures
        copy@ == held@,
{
    let mut copy: Vec<Range<u32>> = Vec::new();
    let mut i: usize = 0;
    while i < held.len()
        invariant
            i <= held@.len(),
            copy@ == held@.take(i as int),
        decreases held@.len() - i,
    {
        copy.push(duplicate(&held[i]));
        assert(copy@ =~= held@.take(i + 1));
        i += 1;
    }
    assert(copy@ =~= held@);
    copy
}

/// Finds the first entry of `held` that holds every byte of `range`.
fn find_enclosing(held: &Vec<Range<u32>>, range: &Range<u32>) -> (found: Option<usize>)
    ensures
        match found {
            Some(i) => i < held@.len() && i == first_index(held@, enclosing(*range)) && contains(
                held@[i as int],
                *range,
            ),
            None => first_index(held@, enclosing(*range)) == held@.len(),
        },
{
    let mut i: usize = 0;
    while i < held.len()
        invariant
            i <= held@.len(),
            forall|j: int| 0 <= j < i ==> !enclosing(*range)(#[trigger] held@[j]),
        decreases held@.len() - i,
    {
        if held[i].start <= range.start && held[i].end >= range.end {
            proof {
                lemma_first_index_is(held@, enclosing(*range), i as int);
            }
            return Some(i);
        }
        i += 1;
    }
    proof {
        lemma_first_index_is(held@, enclosing(*range), i as int);
    }
    None
}

/// Finds the first entry of `held` that holds offset `x`.
fn find_holding(held: &Vec<Range<u32>>, x: u32) -> (found: Option<usize>)
    ensures
        match found {
            Some(i) => i < held@.len() && i == first_index(held@, holding(x)) && holds(
                held@[i as int],
                x as int,
            ),
            None => first_index(held@, holding(x)) == held@.len(),
        },
{
    let mut i: usize = 0;
    while i < held.len()
        invariant
            i <= held@.len(),
            forall|j: int| 0 <= j < i ==> !holding(x)(#[trigger] held@[j]),
        decreases held@.len() - i,
    {
        if held[i].start <= x && x <= held[i].end {
            proof {
                lemma_first_index_is(held@, holding(x), i as int);
            }
            return Some(i);
        }
        i += 1;
    }
    proof {
        lemma_first_index_is(held@, holding(x), i as int);
    }
    None
}

impl Default for Allocator {
    fn default() -> (a: Allocator)
        ensures
            a.wf(),
            a@ == AllocatorView::empty(),
    {
        Allocator::new()
    }
}

/// Finds the first entry of `held` that starts at `start`.
fn find_entry(held: &Vec<Range<u32>>, start: u32) -> (found: Option<usize>)
    ensures
        match found {
            Some(i) => i < held@.len() && i == position(held@, start) && held@[i as int].start
                == start,
            None => position(held@, start) == held@.len(),
        },
{
    let mut i: usize = 0;
    while i < held.len()
        invariant
            i <= held@.len(),
            forall|j: int| 0 <= j < i ==> !starts_at(start)(#[trigger] held@[j]),
        decreases held@.len() - i,
    {
        if held[i].start == start {
            proof {
                lemma_first_index_is(held@, starts_at(start), i as int);
            }
            return Some(i);
        }
        i += 1;
    }
    proof {
        lemma_first_index_is(held@, starts_at(start), i as int);
    }
    None
}

/// Sets the bytes of `range` to zero.
fn clear_bytes(heap: &mut Vec<u8>, range: &Range<u32>)
    requires
        valid(*range),
        range.end < old(heap)@.len(),
    ensures
        final(heap)@ == zeroed(old(heap)@, *range),
{
    let end: usize = range.end as usize;
    let mut k: usize = range.start as usize;
    assert(end < heap.len());
    while k <= end
        invariant
            range.start <= k <= end + 1,
            end < usize::MAX,
            end == range.end,
            end < heap@.len(),
            heap@.len() == old(heap)@.len(),
            forall|x: int|
                0 <= x < heap@.len() ==> #[trigger] heap@[x] == if range.start <= x < k {
                    0u8
                } else {
                    old(heap)@[x]
                },
        decreases end + 1 - k,
    {
        heap[k] = 0;
        k += 1;
    }
    assert(heap@ =~= zeroed(old(heap)@, *range));
}

} // verus!
