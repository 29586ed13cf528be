//! The mathematical state of the allocator, its invariant, and the state
//! changes that the operations make.

use crate::freelist::{
    all_ok, ascending, clear_of, covers, entry_holds, entry_ok, first_fit, fits, lemma_total_push,
    lemma_total_update, separated, total, touched, FreeEntry,
};
use crate::ledger::{
    held_by, holders, lemma_holders_at_least, lemma_holders_delta, lemma_holders_none,
    lemma_live_bytes_delta, lemma_live_bytes_none, lemma_occurrences_positive,
    lemma_occurrences_prefix, lemma_occurrences_push, lemma_occurrences_swap_remove,
    lemma_occurrences_take, live_bytes, occurrences,
};
use crate::search::{first_index, lemma_first_index};
use crate::span::{apart, contains, disjoint, holds, len, valid};
use crate::types::{AllocError, FreeBlock, MemRange, Process};
use std::ops::Range;
use vstd::prelude::*;

verus! {

/// The allocator as a mathematical value.
#[verifier::ext_equal]
pub struct AllocatorView {
    /// The bytes of the arena.
    pub arena: Seq<u8>,
    /// For each registered process, the ranges it holds, in ledger order.
    pub ledger: Map<Process, Seq<Range<u32>>>,
    /// The live shared range records, by start offset.
    pub records: Map<u32, MemRange>,
    /// The free list, in list order.
    pub free: Seq<FreeEntry>,
}

impl AllocatorView {
    /// The state of a new allocator: no bytes, no process, nothing free.
    pub open spec fn empty() -> AllocatorView {
        AllocatorView {
            arena: Seq::empty(),
            ledger: Map::empty(),
            records: Map::empty(),
            free: Seq::empty(),
        }
    }

    /// `r` is the range of a live record.
    pub open spec fn live(self, r: Range<u32>) -> bool {
        self.records.contains_key(r.start) && self.records[r.start].range == r
    }

    /// The record that starts at `s` lies in the arena, starts where its
    /// key says, is referenced at least once, counts exactly the ledger
    /// entries that refer to it, and shares no byte with a free entry.
    pub open spec fn record_ok(self, s: u32) -> bool {
        let rec = self.records[s];
        &&& rec.range.start == s
        &&& valid(rec.range)
        &&& rec.range.end < self.arena.len()
        &&& rec.refcount >= 1
        &&& rec.refcount == holders(self.ledger, rec.range)
        &&& clear_of(self.free, rec.range)
    }

    /// Every live record is in order.
    pub open spec fn records_ok(self) -> bool {
        forall|s: u32| #[trigger] self.records.contains_key(s) ==> self.record_ok(s)
    }

    /// No two live records share a byte.
    pub open spec fn records_disjoint(self) -> bool {
        forall|a: u32, b: u32|
            #![trigger self.records.contains_key(a), self.records.contains_key(b)]
            self.records.contains_key(a) && self.records.contains_key(b) && a != b ==> disjoint(
                self.records[a].range,
                self.records[b].range,
            )
    }

    /// Every ledger entry is the range of a live record.
    pub open spec fn ledger_live(self) -> bool {
        forall|p: Process, i: int|
            self.ledger.contains_key(p) && 0 <= i < self.ledger[p].len() ==> self.live(
                #[trigger] self.ledger[p][i],
            )
    }

    /// The free list is made of well-formed entries inside the arena, no
    /// two of them overlapping or adjacent.
    pub open spec fn free_ok(self) -> bool {
        &&& all_ok(self.free)
        &&& separated(self.free)
        &&& forall|i: int| 0 <= i < self.free.len() ==> (#[trigger] self.free[i]).1.end < self.arena.len()
    }

    /// The arena is exactly as long as the live records and the free
    /// entries together.
    pub open spec fn conserved(self) -> bool {
        self.arena.len() == live_bytes(self.records) + total(self.free)
    }

    /// The invariant of the allocator.
    pub open spec fn wf(self) -> bool {
        &&& self.arena.len() <= u32::MAX
        &&& self.records_ok()
        &&& self.records_disjoint()
        &&& self.ledger_live()
        &&& self.free_ok()
        &&& self.conserved()
    }

    /// The state after process `p` has been registered.
    pub open spec fn with_process(self, p: Process) -> AllocatorView {
        AllocatorView { ledger: self.ledger.insert(p, Seq::empty()), ..self }
    }

    /// The state after `p` has been given a new record of range `r`: the
    /// record has one reference, and `r` is the last entry of `p`.
    pub open spec fn granted(self, p: Process, r: Range<u32>) -> AllocatorView {
        AllocatorView {
            ledger: self.ledger.insert(p, self.ledger[p].push(r)),
            records: self.records.insert(r.start, MemRange { refcount: 1, range: r }),
            ..self
        }
    }

    /// The state after `size` zero bytes have been added to the arena and
    /// given to `p`.
    pub open spec fn grown(self, p: Process, size: u32) -> AllocatorView {
        AllocatorView { arena: self.arena + zeros(size as nat), ..self }.granted(
            p,
            block_at(self.arena.len() as int, size),
        )
    }

    /// The state after the first `size` bytes of free entry `i` have been
    /// given to `p`: the entry leaves the list, the last entry takes its
    /// place, and what is left of it is appended.
    pub open spec fn carved(self, p: Process, i: int, size: u32) -> AllocatorView {
        AllocatorView {
            free: self.free.update(i, self.free.last()).drop_last() + rest_of(self.free[i], size),
            ..self
        }.granted(p, block_at(self.free[i].1.start as int, size))
    }

    /// The range that an allocation of `size` bytes returns: the head of
    /// the first free entry that is large enough, else the bytes that the
    /// arena grows by.
    pub open spec fn allocation(self, size: u32) -> Range<u32> {
        let i = first_fit(self.free, size);
        if i < self.free.len() {
            block_at(self.free[i].1.start as int, size)
        } else {
            block_at(self.arena.len() as int, size)
        }
    }

    /// The state after `target` has been given a further reference to the
    /// live record of range `r`: the record counts one more, and `r` is the
    /// last entry of `target`.
    pub open spec fn shared(self, target: Process, r: Range<u32>) -> AllocatorView {
        AllocatorView {
            ledger: self.ledger.insert(target, self.ledger[target].push(r)),
            records: self.records.insert(
                r.start,
                MemRange { refcount: (self.records[r.start].refcount + 1) as u32, range: r },
            ),
            ..self
        }
    }

    /// The state after the bytes of `range` have been replaced by `bytes`.
    pub open spec fn rewritten(self, range: Range<u32>, bytes: Seq<u8>) -> AllocatorView {
        AllocatorView {
            arena: self.arena.subrange(0, range.start as int) + bytes + self.arena.subrange(
                range.end + 1,
                self.arena.len() as int,
            ),
            ..self
        }
    }

    /// The bytes of `range`.
    pub open spec fn bytes_of(self, range: Range<u32>) -> Seq<u8> {
        self.arena.subrange(range.start as int, range.end + 1)
    }

    /// The ledger after `p` has lost its entry `i`: the last entry of `p`
    /// takes the place of entry `i`.
    pub open spec fn ledger_without(self, p: Process, i: int) -> Map<Process, Seq<Range<u32>>> {
        self.ledger.insert(p, self.ledger[p].update(i, self.ledger[p].last()).drop_last())
    }

    /// The state after `p` has dropped entry `i` while the record keeps
    /// other holders: the entry is gone and the record counts one less.
    pub open spec fn dropped(self, p: Process, i: int) -> AllocatorView {
        let r = self.ledger[p][i];
        AllocatorView {
            ledger: self.ledger_without(p, i),
            records: self.records.insert(
                r.start,
                MemRange { refcount: (self.records[r.start].refcount - 1) as u32, range: r },
            ),
            ..self
        }
    }

    /// `post` is the state after `p` has dropped entry `i` as the last
    /// holder of its record: the entry and the record are gone, the bytes
    /// are zero if `zeroize` asks so, and the free list is the ascending,
    /// coalesced list whose free bytes are the old free bytes and the bytes
    /// of the block.
    pub open spec fn released(self, p: Process, i: int, zeroize: bool, post: AllocatorView) -> bool {
        let r = self.ledger[p][i];
        &&& post.arena == if zeroize {
            zeroed(self.arena, r)
        } else {
            self.arena
        }
        &&& post.ledger == self.ledger_without(p, i)
        &&& post.records == self.records.remove(r.start)
        &&& all_ok(post.free)
        &&& separated(post.free)
        &&& ascending(post.free)
        &&& total(post.free) == total(self.free) + len(r)
        &&& forall|x: int|
            #![trigger covers(post.free, x)]
            #![trigger covers(self.free, x)]
            #![trigger holds(r, x)]
            covers(post.free, x) <==> covers(self.free, x) || holds(r, x)
    }

    /// `post` and `res` are the state and the result of a free, by `p`, of
    /// the block that starts at `start`.
    ///
    /// An unknown process and a start offset that no entry of `p` has are
    /// refused and change nothing. Otherwise the first entry of `p` with
    /// that start is dropped. While the record has other holders only the
    /// reference goes. The last holder returns the bytes to the free list:
    /// as a `Free` of the block's size where no free entry was adjacent to
    /// the block, else as a `FreeMerge` of the size of the free entry that
    /// now holds the block.
    pub open spec fn freed(
        self,
        p: Process,
        start: u32,
        zeroize: bool,
        post: AllocatorView,
        res: Result<FreeBlock, AllocError>,
    ) -> bool {
        if !self.ledger.contains_key(p) {
            res == Err::<FreeBlock, AllocError>(AllocError::NoSuchProcess) && post == self
        } else {
            let i = position(self.ledger[p], start);
            if i == self.ledger[p].len() {
                res == Err::<FreeBlock, AllocError>(AllocError::BlockNotFound) && post == self
            } else {
                let r = self.ledger[p][i];
                if self.records[r.start].refcount > 1 {
                    res == Ok::<FreeBlock, AllocError>(FreeBlock::RefcountDecreased) && post
                        == self.dropped(p, i)
                } else {
                    &&& self.released(p, i, zeroize, post)
                    &&& res == Ok::<FreeBlock, AllocError>(
                        if touched(self.free, r) {
                            FreeBlock::FreeMerge(cover_size(post.free, r.start as int) as u32)
                        } else {
                            FreeBlock::Free(len(r) as u32)
                        },
                    )
                }
            }
        }
    }

    /// The record that starts at `s` has all its references among `held`.
    pub open spec fn spent(self, held: Seq<Range<u32>>, s: u32) -> bool {
        self.records.contains_key(s) && occurrences(held, self.records[s].range)
            == self.records[s].refcount
    }

    /// Offset `x` lies in a record that has all its references among
    /// `held`.
    pub open spec fn returned(self, held: Seq<Range<u32>>, x: int) -> bool {
        exists|s: u32| #[trigger] self.spent(held, s) && holds(self.records[s].range, x)
    }

    /// The records once the references in `held` are dropped: each record
    /// counts less by the number of its entries in `held`, and a record
    /// with no reference left is gone.
    pub open spec fn records_without(self, held: Seq<Range<u32>>) -> Map<u32, MemRange> {
        Map::new(
            |s: u32|
                self.records.contains_key(s) && occurrences(held, self.records[s].range)
                    < self.records[s].refcount,
            |s: u32|
                MemRange {
                    refcount: (self.records[s].refcount - occurrences(
                        held,
                        self.records[s].range,
                    )) as u32,
                    range: self.records[s].range,
                },
        )
    }

    /// `cur` is the state once the first `i` ledger entries of `p`, as they
    /// stood in `self`, have been freed one by one.
    pub open spec fn torn_partly(self, p: Process, i: int, cur: AllocatorView) -> bool {
        let snap = self.ledger[p];
        &&& cur.arena == self.arena
        &&& cur.ledger.dom() == self.ledger.dom()
        &&& forall|q: Process| q != p && #[trigger] self.ledger.contains_key(q) ==> cur.ledger[q]
            == self.ledger[q]
        &&& forall|r: Range<u32>|
            #[trigger] occurrences(cur.ledger[p], r) + occurrences(snap.take(i), r) == occurrences(
                snap,
                r,
            )
        &&& cur.records == self.records_without(snap.take(i))
        &&& forall|x: int|
            #![trigger covers(cur.free, x)]
            #![trigger covers(self.free, x)]
            #![trigger self.returned(snap.take(i), x)]
            covers(cur.free, x) <==> covers(self.free, x) || self.returned(snap.take(i), x)
        &&& if exists|s: u32| self.spent(snap.take(i), s) {
            ascending(cur.free)
        } else {
            cur.free == self.free
        }
    }

    /// `post` is the state after process `p` has been torn down.
    ///
    /// The process is gone from the ledger. Every record counts less by
    /// the number of entries that `p` had of it. A record that only `p`
    /// held is gone, and its bytes are free bytes, merged with the free
    /// space next to them; where there is such a record the free list is
    /// in ascending order, else it is untouched. The arena keeps its
    /// bytes.
    pub open spec fn torn_down(self, p: Process, post: AllocatorView) -> bool {
        let held = self.ledger[p];
        &&& post.arena == self.arena
        &&& post.ledger == self.ledger.remove(p)
        &&& post.records == self.records_without(held)
        &&& all_ok(post.free)
        &&& separated(post.free)
        &&& forall|x: int|
            #![trigger covers(post.free, x)]
            #![trigger covers(self.free, x)]
            #![trigger self.returned(held, x)]
            covers(post.free, x) <==> covers(self.free, x) || self.returned(held, x)
        &&& if exists|s: u32| self.spent(held, s) {
            ascending(post.free)
        } else {
            post.free == self.free
        }
    }

    /// The state after `size` bytes have been allocated to `p`, first-fit.
    pub open spec fn allocated(self, p: Process, size: u32) -> AllocatorView {
        let i = first_fit(self.free, size);
        if i < self.free.len() {
            self.carved(p, i, size)
        } else {
            self.grown(p, size)
        }
    }
}

/// The range starts at `start`.
pub open spec fn starts_at(start: u32) -> spec_fn(Range<u32>) -> bool {
    |r: Range<u32>| r.start == start
}

/// The range holds offset `x`.
pub open spec fn holding(x: u32) -> spec_fn(Range<u32>) -> bool {
    |r: Range<u32>| holds(r, x as int)
}

/// The range holds every byte of `inner`.
pub open spec fn enclosing(inner: Range<u32>) -> spec_fn(Range<u32>) -> bool {
    |r: Range<u32>| contains(r, inner)
}

/// Index of the first range of `held` that starts at `start`, or the
/// length of `held` when there is none.
pub open spec fn position(held: Seq<Range<u32>>, start: u32) -> int {
    first_index(held, starts_at(start))
}

/// The arena with the bytes of `r` set to zero.
pub open spec fn zeroed(arena: Seq<u8>, r: Range<u32>) -> Seq<u8> {
    Seq::new(
        arena.len(),
        |x: int|
            if holds(r, x) {
                0u8
            } else {
                arena[x]
            },
    )
}

/// Capacity of the free entry that holds offset `x`; zero where `x` is
/// not a free byte.
pub open spec fn cover_size(f: Seq<FreeEntry>, x: int) -> int
    decreases f.len(),
{
    if f.len() == 0 {
        0
    } else if entry_holds(f.last(), x) {
        f.last().0 as int
    } else {
        cover_size(f.drop_last(), x)
    }
}

/// `n` zero bytes.
pub open spec fn zeros(n: nat) -> Seq<u8> {
    Seq::new(n, |i: int| 0u8)
}

/// The range of `size` bytes that begins at `start`.
pub open spec fn block_at(start: int, size: u32) -> Range<u32> {
    Range { start: start as u32, end: (start + size - 1) as u32 }
}

/// What is left of a free entry once its first `size` bytes are taken:
/// one entry, or nothing where the entry had exactly `size` bytes.
pub open spec fn rest_of(e: FreeEntry, size: u32) -> Seq<FreeEntry> {
    if e.0 > size {
        seq![((e.0 - size) as u32, Range { start: (e.1.start + size) as u32, end: e.1.end })]
    } else {
        Seq::empty()
    }
}

/// A new allocator satisfies the invariant.
pub proof fn lemma_empty_wf()
    ensures
        AllocatorView::empty().wf(),
{
    lemma_live_bytes_none(AllocatorView::empty().records, 0x1_0000_0000);
}

/// Registering a new process keeps the invariant.
pub proof fn lemma_with_process_wf(v: AllocatorView, p: Process)
    requires
        v.wf(),
        !v.ledger.contains_key(p),
    ensures
        v.with_process(p).wf(),
{
    let w = v.with_process(p);
    assert forall|s: u32| #[trigger] w.records.contains_key(s) implies w.record_ok(s) by {
        assert(v.record_ok(s));
        lemma_holders_delta(v.ledger, w.ledger, p, v.records[s].range);
    }
    assert forall|q: Process, i: int|
        w.ledger.contains_key(q) && 0 <= i < w.ledger[q].len() implies w.live(
        #[trigger] w.ledger[q][i],
    ) by {
        assert(q != p);
        assert(v.live(v.ledger[q][i]));
    }
}

/// A range that is not live is held by nobody.
pub proof fn lemma_unheld(v: AllocatorView, r: Range<u32>)
    requires
        v.ledger_live(),
        !v.live(r),
    ensures
        holders(v.ledger, r) == 0,
{
    assert forall|id: u32| held_by(v.ledger, id, r) == 0 by {
        let q = Process(id);
        if v.ledger.contains_key(q) {
            lemma_occurrences_positive(v.ledger[q], r);
            if occurrences(v.ledger[q], r) > 0 {
                let i = choose|i: int| 0 <= i < v.ledger[q].len() && v.ledger[q][i] == r;
                assert(v.live(v.ledger[q][i]));
            }
        }
    }
    lemma_holders_none(v.ledger, r, 0x1_0000_0000);
}

/// Giving `p` a first reference to a range that is not live, lies in the
/// arena and shares no byte with a record keeps the part of the invariant
/// that speaks of records and ledger.
pub proof fn lemma_granted(v: AllocatorView, p: Process, r: Range<u32>)
    requires
        v.records_ok(),
        v.records_disjoint(),
        v.ledger_live(),
        v.ledger.contains_key(p),
        valid(r),
        r.end < v.arena.len(),
        clear_of(v.free, r),
        forall|s: u32| #[trigger] v.records.contains_key(s) ==> disjoint(v.records[s].range, r),
    ensures
        v.granted(p, r).records_ok(),
        v.granted(p, r).records_disjoint(),
        v.granted(p, r).ledger_live(),
        live_bytes(v.granted(p, r).records) == live_bytes(v.records) + len(r),
{
    let w = v.granted(p, r);
    if v.records.contains_key(r.start) {
        assert(v.record_ok(r.start));
    }
    assert(!v.live(r));
    lemma_unheld(v, r);
    assert forall|s: u32| #[trigger] w.records.contains_key(s) implies w.record_ok(s) by {
        let range = w.records[s].range;
        lemma_holders_delta(v.ledger, w.ledger, p, range);
        lemma_occurrences_push(v.ledger[p], r, range);
        if s != r.start {
            assert(v.record_ok(s));
        }
    }
    assert forall|a: u32, b: u32|
        #![trigger w.records.contains_key(a), w.records.contains_key(b)]
        w.records.contains_key(a) && w.records.contains_key(b) && a != b implies disjoint(
        w.records[a].range,
        w.records[b].range,
    ) by {
        if a != r.start {
            assert(v.records.contains_key(a));
        }
        if b != r.start {
            assert(v.records.contains_key(b));
        }
    }
    assert forall|q: Process, i: int|
        w.ledger.contains_key(q) && 0 <= i < w.ledger[q].len() implies w.live(
        #[trigger] w.ledger[q][i],
    ) by {
        if q != p || i < v.ledger[p].len() {
            assert(v.live(v.ledger[q][i]));
            assert(v.records.contains_key(v.ledger[q][i].start));
        }
    }
    lemma_live_bytes_delta(v.records, w.records, r.start);
}

/// Growing the arena for an allocation keeps the invariant.
pub proof fn lemma_grown_wf(v: AllocatorView, p: Process, size: u32)
    requires
        v.wf(),
        v.ledger.contains_key(p),
        size > 0,
        v.arena.len() + size <= u32::MAX,
    ensures
        v.grown(p, size).wf(),
{
    let r = block_at(v.arena.len() as int, size);
    let u = AllocatorView { arena: v.arena + zeros(size as nat), ..v };
    assert forall|s: u32| #[trigger] u.records.contains_key(s) implies u.record_ok(s)
        && disjoint(u.records[s].range, r) by {
        assert(v.record_ok(s));
    }
    lemma_granted(u, p, r);
    let w = v.grown(p, size);
    assert forall|s: u32| #[trigger] w.records.contains_key(s) implies w.record_ok(s) by {
        assert(u.granted(p, r).record_ok(s));
    }
}

/// Carving an allocation out of a free entry that is large enough keeps
/// the invariant.
pub proof fn lemma_carved_wf(v: AllocatorView, p: Process, i: int, size: u32)
    requires
        v.wf(),
        v.ledger.contains_key(p),
        size > 0,
        0 <= i < v.free.len(),
        v.free[i].0 >= size,
    ensures
        v.carved(p, i, size).wf(),
{
    let e = v.free[i];
    let r = block_at(e.1.start as int, size);
    let f = v.free.update(i, v.free.last()).drop_last() + rest_of(e, size);
    let u = AllocatorView { free: f, ..v };
    let n = v.free.len() - 1;
    assert(entry_ok(e));
    assert(e.1.end < v.arena.len());
    assert forall|j: int| 0 <= j < f.len() implies exists|m: int|
        0 <= m < v.free.len() && (if j < n {
            m != i && #[trigger] f[j] == v.free[m]
        } else {
            f[j] == rest_of(e, size)[0]
        }) by {
        if j < n {
            if j == i {
                assert(f[j] == v.free[n]);
            } else {
                assert(f[j] == v.free[j]);
            }
        } else {
            assert(f[j] == rest_of(e, size)[0]);
            assert(v.free[i] == e);
        }
    }
    assert(all_ok(f)) by {
        assert forall|j: int| 0 <= j < f.len() implies entry_ok(#[trigger] f[j]) by {
            if j < n {
                let m = if j == i { n } else { j };
                assert(f[j] == v.free[m]);
                assert(entry_ok(v.free[m]));
            }
        }
    }
    assert(separated(f)) by {
        assert forall|a: int, b: int| #![trigger f[a], f[b]] 0 <= a < b < f.len() implies apart(
            f[a].1,
            f[b].1,
        ) by {
            let ma = if a == i { n } else { a };
            assert(f[a] == v.free[ma]);
            assert(ma != i);
            if b < n {
                let mb = if b == i { n } else { b };
                assert(f[b] == v.free[mb]);
                if ma < mb {
                    assert(apart(v.free[ma].1, v.free[mb].1));
                } else {
                    assert(apart(v.free[mb].1, v.free[ma].1));
                }
            } else {
                if ma < i {
                    assert(apart(v.free[ma].1, v.free[i].1));
                } else {
                    assert(apart(v.free[i].1, v.free[ma].1));
                }
            }
        }
    }
    assert forall|j: int| 0 <= j < f.len() implies (#[trigger] f[j]).1.end < v.arena.len()
        && disjoint(f[j].1, r) by {
        if j < n {
            let m = if j == i { n } else { j };
            assert(f[j] == v.free[m]);
            assert(v.free[m].1.end < v.arena.len());
            if m < i {
                assert(apart(v.free[m].1, v.free[i].1));
            } else {
                assert(apart(v.free[i].1, v.free[m].1));
            }
        }
    }
    assert forall|s: u32| #[trigger] u.records.contains_key(s) implies u.record_ok(s)
        && disjoint(u.records[s].range, r) by {
        assert(v.record_ok(s));
        let range = v.records[s].range;
        assert(disjoint(v.free[i].1, range));
        assert forall|j: int| 0 <= j < f.len() implies disjoint((#[trigger] f[j]).1, range) by {
            if j < n {
                let m = if j == i { n } else { j };
                assert(f[j] == v.free[m]);
                assert(disjoint(v.free[m].1, range));
            }
        }
    }
    lemma_granted(u, p, r);
    let w = v.carved(p, i, size);
    assert(w == u.granted(p, r));
    assert(total(f) == total(v.free) - size) by {
        let g = v.free.update(i, v.free.last());
        lemma_total_update(v.free, i, v.free.last());
        assert(total(g.drop_last()) == total(g) - g.last().0);
        if e.0 > size {
            assert(f =~= g.drop_last().push(rest_of(e, size)[0]));
            lemma_total_push(g.drop_last(), rest_of(e, size)[0]);
        } else {
            assert(f =~= g.drop_last());
        }
    }
}

/// An allocation keeps the invariant, provided the arena may grow by
/// `size` bytes where no free entry is large enough.
pub proof fn lemma_allocated_wf(v: AllocatorView, p: Process, size: u32)
    requires
        v.wf(),
        v.ledger.contains_key(p),
        size > 0,
        first_fit(v.free, size) == v.free.len() ==> v.arena.len() + size <= u32::MAX,
    ensures
        v.allocated(p, size).wf(),
{
    lemma_first_index(v.free, fits(size));
    let i = first_fit(v.free, size);
    if i < v.free.len() {
        lemma_carved_wf(v, p, i, size);
    } else {
        lemma_grown_wf(v, p, size);
    }
}

/// In a list without overlap the entry that holds `x` gives the size.
pub proof fn lemma_cover_size(f: Seq<FreeEntry>, x: int, j: int)
    requires
        all_ok(f),
        separated(f),
        0 <= j < f.len(),
        entry_holds(f[j], x),
    ensures
        cover_size(f, x) == f[j].0,
    decreases f.len(),
{
    let n = f.len() - 1;
    if j < n {
        assert(apart(f[j].1, f[n].1));
        let rest = f.drop_last();
        assert(rest[j] == f[j]);
        assert(all_ok(rest)) by {
            assert forall|i: int| 0 <= i < rest.len() implies entry_ok(#[trigger] rest[i]) by {
                assert(rest[i] == f[i]);
            }
        }
        assert(separated(rest)) by {
            assert forall|a: int, b: int| #![trigger rest[a], rest[b]] 0 <= a < b
                < rest.len() implies apart(rest[a].1, rest[b].1) by {
                assert(rest[a] == f[a] && rest[b] == f[b]);
            }
        }
        lemma_cover_size(rest, x, j);
    }
}

/// Dropping a reference to a record that keeps other holders keeps the
/// invariant.
pub proof fn lemma_dropped_wf(v: AllocatorView, p: Process, i: int)
    requires
        v.wf(),
        v.ledger.contains_key(p),
        0 <= i < v.ledger[p].len(),
        v.records[v.ledger[p][i].start].refcount > 1,
    ensures
        v.dropped(p, i).wf(),
{
    let w = v.dropped(p, i);
    let r = v.ledger[p][i];
    assert(v.live(r));
    assert(v.record_ok(r.start));
    assert forall|s: u32| #[trigger] w.records.contains_key(s) implies w.record_ok(s) by {
        assert(v.records.contains_key(s));
        assert(v.record_ok(s));
        let range = v.records[s].range;
        lemma_holders_delta(v.ledger, w.ledger, p, range);
        lemma_occurrences_swap_remove(v.ledger[p], i, range);
    }
    assert forall|a: u32, b: u32|
        #![trigger w.records.contains_key(a), w.records.contains_key(b)]
        w.records.contains_key(a) && w.records.contains_key(b) && a != b implies disjoint(
        w.records[a].range,
        w.records[b].range,
    ) by {
        assert(v.records.contains_key(a) && v.records.contains_key(b));
    }
    assert forall|q: Process, j: int|
        w.ledger.contains_key(q) && 0 <= j < w.ledger[q].len() implies w.live(
        #[trigger] w.ledger[q][j],
    ) by {
        if q == p {
            let m = if j == i { v.ledger[p].len() - 1 } else { j };
            assert(w.ledger[q][j] == v.ledger[p][m]);
            assert(v.live(v.ledger[p][m]));
        } else {
            assert(v.live(v.ledger[q][j]));
        }
    }
    lemma_live_bytes_delta(v.records, w.records, r.start);
}

/// Returning the block of a last holder to the free list keeps the
/// invariant.
pub proof fn lemma_released_wf(v: AllocatorView, p: Process, i: int, zeroize: bool, w: AllocatorView)
    requires
        v.wf(),
        v.ledger.contains_key(p),
        0 <= i < v.ledger[p].len(),
        v.records[v.ledger[p][i].start].refcount == 1,
        v.released(p, i, zeroize, w),
    ensures
        w.wf(),
{
    let r = v.ledger[p][i];
    assert(v.live(r));
    assert(v.record_ok(r.start));
    assert(holders(w.ledger, r) == 0) by {
        lemma_holders_delta(v.ledger, w.ledger, p, r);
        lemma_occurrences_swap_remove(v.ledger[p], i, r);
    }
    assert forall|s: u32| #[trigger] w.records.contains_key(s) implies w.record_ok(s) by {
        assert(v.records.contains_key(s));
        assert(v.record_ok(s));
        assert(v.records.contains_key(r.start));
        let range = v.records[s].range;
        lemma_holders_delta(v.ledger, w.ledger, p, range);
        lemma_occurrences_swap_remove(v.ledger[p], i, range);
        assert forall|j: int| 0 <= j < w.free.len() implies disjoint(
            (#[trigger] w.free[j]).1,
            range,
        ) by {
            let e = w.free[j];
            assert(entry_ok(e));
            if !disjoint(e.1, range) {
                let x: int = if e.1.start >= range.start {
                    e.1.start as int
                } else {
                    range.start as int
                };
                assert(entry_holds(w.free[j], x));
                assert(covers(w.free, x));
                if covers(v.free, x) {
                    let m = choose|m: int| 0 <= m < v.free.len() && entry_holds(v.free[m], x);
                    assert(disjoint(v.free[m].1, range));
                }
            }
        }
    }
    assert forall|a: u32, b: u32|
        #![trigger w.records.contains_key(a), w.records.contains_key(b)]
        w.records.contains_key(a) && w.records.contains_key(b) && a != b implies disjoint(
        w.records[a].range,
        w.records[b].range,
    ) by {
        assert(v.records.contains_key(a) && v.records.contains_key(b));
    }
    assert forall|q: Process, j: int|
        w.ledger.contains_key(q) && 0 <= j < w.ledger[q].len() implies w.live(
        #[trigger] w.ledger[q][j],
    ) by {
        let e = w.ledger[q][j];
        if q == p {
            let m = if j == i { v.ledger[p].len() - 1 } else { j };
            assert(e == v.ledger[p][m]);
            assert(v.live(v.ledger[p][m]));
        } else {
            assert(v.live(v.ledger[q][j]));
        }
        if e.start == r.start {
            assert(e == r);
            lemma_occurrences_positive(w.ledger[q], r);
            lemma_holders_at_least(w.ledger, q, r);
        }
    }
    assert forall|j: int| 0 <= j < w.free.len() implies (#[trigger] w.free[j]).1.end
        < w.arena.len() by {
        let e = w.free[j];
        assert(entry_ok(e));
        let x = e.1.end as int;
        assert(entry_holds(w.free[j], x));
        assert(covers(w.free, x));
        if covers(v.free, x) {
            let m = choose|m: int| 0 <= m < v.free.len() && entry_holds(v.free[m], x);
            assert(v.free[m].1.end < v.arena.len());
        }
    }
    lemma_live_bytes_delta(v.records, w.records, r.start);
}

/// Sharing a live record with a registered process keeps the invariant.
pub proof fn lemma_shared_wf(v: AllocatorView, target: Process, r: Range<u32>)
    requires
        v.wf(),
        v.ledger.contains_key(target),
        v.live(r),
        v.records[r.start].refcount < u32::MAX,
    ensures
        v.shared(target, r).wf(),
{
    let w = v.shared(target, r);
    assert(v.record_ok(r.start));
    assert forall|s: u32| #[trigger] w.records.contains_key(s) implies w.record_ok(s) by {
        assert(v.records.contains_key(s));
        assert(v.record_ok(s));
        let range = v.records[s].range;
        lemma_holders_delta(v.ledger, w.ledger, target, range);
        lemma_occurrences_push(v.ledger[target], r, range);
    }
    assert forall|a: u32, b: u32|
        #![trigger w.records.contains_key(a), w.records.contains_key(b)]
        w.records.contains_key(a) && w.records.contains_key(b) && a != b implies disjoint(
        w.records[a].range,
        w.records[b].range,
    ) by {
        assert(v.records.contains_key(a) && v.records.contains_key(b));
    }
    assert forall|q: Process, j: int|
        w.ledger.contains_key(q) && 0 <= j < w.ledger[q].len() implies w.live(
        #[trigger] w.ledger[q][j],
    ) by {
        if q != target || j < v.ledger[target].len() {
            assert(v.live(v.ledger[q][j]));
        }
    }
    lemma_live_bytes_delta(v.records, w.records, r.start);
}

/// Writing into the bytes of a range, without changing their number,
/// keeps the invariant.
pub proof fn lemma_rewritten_wf(v: AllocatorView, range: Range<u32>, bytes: Seq<u8>)
    requires
        v.wf(),
        valid(range),
        range.end < v.arena.len(),
        bytes.len() == len(range),
    ensures
        v.rewritten(range, bytes).wf(),
        v.rewritten(range, bytes).arena.len() == v.arena.len(),
{
    let w = v.rewritten(range, bytes);
    assert forall|s: u32| #[trigger] w.records.contains_key(s) implies w.record_ok(s) by {
        assert(v.record_ok(s));
    }
}

/// Before any entry has been freed the teardown stands at the start.
pub proof fn lemma_teardown_start(v: AllocatorView, p: Process)
    requires
        v.wf(),
        v.ledger.contains_key(p),
    ensures
        v.torn_partly(p, 0, v),
{
    let snap = v.ledger[p];
    let none = snap.take(0);
    assert(none =~= Seq::<Range<u32>>::empty());
    assert forall|s: u32| !v.spent(none, s) by {
        if v.records.contains_key(s) {
            assert(v.record_ok(s));
        }
    }
    assert(v.records =~= v.records_without(none)) by {
        assert forall|s: u32| #[trigger] v.records.contains_key(s) implies v.records_without(
            none,
        ).contains_key(s) && v.records_without(none)[s] == v.records[s] by {
            assert(v.record_ok(s));
        }
    }
}

/// Freeing the next entry of the snapshot moves the teardown one step on,
/// and cannot fail.
pub proof fn lemma_teardown_step(
    v: AllocatorView,
    p: Process,
    i: int,
    cur: AllocatorView,
    next: AllocatorView,
    res: Result<FreeBlock, AllocError>,
)
    requires
        v.wf(),
        v.ledger.contains_key(p),
        0 <= i < v.ledger[p].len(),
        cur.wf(),
        v.torn_partly(p, i, cur),
        cur.freed(p, v.ledger[p][i].start, false, next, res),
    ensures
        res is Ok,
        v.torn_partly(p, i + 1, next),
{
    let snap = v.ledger[p];
    let r = snap[i];
    let before = snap.take(i);
    let after = snap.take(i + 1);
    let held = cur.ledger[p];
    assert(v.live(r));
    assert(v.records.contains_key(r.start));
    assert(v.record_ok(r.start));
    assert(cur.ledger.contains_key(p));
    assert forall|t: Range<u32>|
        occurrences(after, t) == occurrences(before, t) + if t == r {
            1nat
        } else {
            0nat
        } by {
        lemma_occurrences_take(snap, i, t);
    }
    lemma_occurrences_prefix(snap, i + 1, r);
    assert(occurrences(held, r) + occurrences(before, r) == occurrences(snap, r));
    lemma_occurrences_positive(held, r);
    let m = choose|m: int| 0 <= m < held.len() && held[m] == r;
    lemma_first_index(held, starts_at(r.start));
    let j = position(held, r.start);
    if j > m {
        assert(!starts_at(r.start)(held[m]));
    }
    assert(0 <= j < held.len());
    assert(cur.live(held[j]) && cur.live(held[m]));
    assert(held[j] == r);
    assert(cur.records.contains_key(r.start));
    assert(cur.records[r.start].refcount == v.records[r.start].refcount - occurrences(before, r));
    let rest = held.update(j, held.last()).drop_last();
    assert forall|t: Range<u32>|
        #[trigger] occurrences(next.ledger[p], t) + occurrences(after, t) == occurrences(
            snap,
            t,
        ) by {
        assert(next.ledger[p] == rest);
        lemma_occurrences_swap_remove(held, j, t);
        assert(occurrences(held, t) + occurrences(before, t) == occurrences(snap, t));
    }
    assert forall|s: u32| s != r.start && v.records.contains_key(s) implies occurrences(
        after,
        #[trigger] v.records[s].range,
    ) == occurrences(before, v.records[s].range) by {
        assert(v.record_ok(s));
    }
    assert forall|s: u32| s != r.start implies (v.spent(after, s) <==> v.spent(before, s)) by {}
    assert(!v.spent(before, r.start));
    assert(next.records =~= v.records_without(after));
    if cur.records[r.start].refcount > 1 {
        assert(!v.spent(after, r.start));
        assert forall|x: int| v.returned(after, x) <==> v.returned(before, x) by {
            if v.returned(after, x) {
                let s = choose|s: u32| #[trigger]
                    v.spent(after, s) && holds(v.records[s].range, x);
                assert(v.spent(before, s));
            }
            if v.returned(before, x) {
                let s = choose|s: u32| #[trigger]
                    v.spent(before, s) && holds(v.records[s].range, x);
                assert(v.spent(after, s));
            }
        }
        if exists|s: u32| v.spent(after, s) {
            let s = choose|s: u32| v.spent(after, s);
            assert(v.spent(before, s));
        }
        if exists|s: u32| v.spent(before, s) {
            let s = choose|s: u32| v.spent(before, s);
            assert(v.spent(after, s));
        }
        assert(next.ledger.dom() =~= v.ledger.dom());
    } else {
        assert(v.spent(after, r.start));
        assert forall|x: int| v.returned(after, x) <==> v.returned(before, x) || holds(r, x) by {
            if v.returned(after, x) {
                let s = choose|s: u32| #[trigger]
                    v.spent(after, s) && holds(v.records[s].range, x);
                if s != r.start {
                    assert(v.spent(before, s));
                }
            }
            if v.returned(before, x) {
                let s = choose|s: u32| #[trigger]
                    v.spent(before, s) && holds(v.records[s].range, x);
                assert(v.spent(after, s));
            }
        }
        assert(next.ledger.dom() =~= v.ledger.dom());
    }
}

/// Once every entry of the snapshot has been freed, removing the process
/// from the ledger completes the teardown and keeps the invariant.
pub proof fn lemma_teardown_done(v: AllocatorView, p: Process, cur: AllocatorView)
    requires
        v.wf(),
        v.ledger.contains_key(p),
        cur.wf(),
        v.torn_partly(p, v.ledger[p].len() as int, cur),
    ensures
        v.torn_down(p, AllocatorView { ledger: cur.ledger.remove(p), ..cur }),
        (AllocatorView { ledger: cur.ledger.remove(p), ..cur }).wf(),
{
    let snap = v.ledger[p];
    let w = AllocatorView { ledger: cur.ledger.remove(p), ..cur };
    assert(snap.take(snap.len() as int) =~= snap);
    assert(w.ledger =~= v.ledger.remove(p));
    assert forall|r: Range<u32>| occurrences(cur.ledger[p], r) == 0 by {
        assert(occurrences(cur.ledger[p], r) + occurrences(snap.take(snap.len() as int), r)
            == occurrences(snap, r));
    }
    assert forall|s: u32| #[trigger] w.records.contains_key(s) implies w.record_ok(s) by {
        assert(cur.record_ok(s));
        lemma_holders_delta(cur.ledger, w.ledger, p, cur.records[s].range);
    }
    assert forall|q: Process, j: int|
        w.ledger.contains_key(q) && 0 <= j < w.ledger[q].len() implies w.live(
        #[trigger] w.ledger[q][j],
    ) by {
        assert(cur.live(cur.ledger[q][j]));
    }
}

} // verus!
