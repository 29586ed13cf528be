//! What holds of the allocator in every state that its operations can
//! reach, and of every step that they take.

use crate::freelist::{
    all_ok, ascending, covers, entry_holds, entry_ok, first_fit, fits, separated, total, FreeEntry,
};
use crate::ledger::{
    holders, lemma_holders_at_least, lemma_occurrences_positive, live_bytes, occurrences,
};
use crate::model::{
    block_at, enclosing, lemma_allocated_wf, lemma_dropped_wf, lemma_shared_wf, position,
    starts_at, AllocatorView,
};
use crate::search::{first_index, lemma_first_index};
use crate::span::{apart, contains, disjoint, holds, len, touches, valid};
use crate::types::{AllocError, FreeBlock, Process};
use std::ops::Range;
use vstd::prelude::*;

verus! {

/// Two live records that differ share no byte.
pub proof fn law_live_ranges_disjoint(v: AllocatorView, a: Range<u32>, b: Range<u32>)
    requires
        v.wf(),
        v.live(a),
        v.live(b),
        a != b,
    ensures
        disjoint(a, b),
{
    assert(v.records.contains_key(a.start) && v.records.contains_key(b.start));
}

/// An allocation returns `size` bytes that no record held before, keeps
/// every record that was live, and makes the returned range live.
pub proof fn law_allocation_is_fresh(v: AllocatorView, p: Process, size: u32)
    requires
        v.wf(),
        v.ledger.contains_key(p),
        size > 0,
        first_fit(v.free, size) == v.free.len() ==> v.arena.len() + size <= u32::MAX,
    ensures
        valid(v.allocation(size)),
        len(v.allocation(size)) == size,
        v.allocated(p, size).live(v.allocation(size)),
        forall|s: u32| #[trigger]
            v.records.contains_key(s) ==> v.allocated(p, size).records.contains_key(s)
                && v.allocated(p, size).records[s] == v.records[s] && disjoint(
                v.records[s].range,
                v.allocation(size),
            ),
{
    lemma_first_index(v.free, fits(size));
    lemma_allocated_wf(v, p, size);
    let r = v.allocation(size);
    let w = v.allocated(p, size);
    let i = first_fit(v.free, size);
    if i < v.free.len() {
        assert(entry_ok(v.free[i]));
    }
    assert(w.records.contains_key(r.start));
    assert(w.record_ok(r.start));
    assert forall|s: u32| #[trigger] v.records.contains_key(s) implies w.records.contains_key(s)
        && w.records[s] == v.records[s] && disjoint(v.records[s].range, r) by {
        assert(v.record_ok(s));
        if i < v.free.len() {
            assert(disjoint(v.free[i].1, v.records[s].range));
        }
        assert(s != r.start);
    }
}

/// The arena is as long as the live records, each counted once, and the
/// free entries together.
pub proof fn law_conservation(v: AllocatorView)
    requires
        v.wf(),
    ensures
        v.arena.len() == live_bytes(v.records) + total(v.free),
{
}

/// No two entries of the free list overlap or are adjacent, and no free
/// entry shares a byte with a live record.
pub proof fn law_free_space_is_coalesced(v: AllocatorView, i: int, j: int, r: Range<u32>)
    requires
        v.wf(),
        0 <= i < v.free.len(),
        0 <= j < v.free.len(),
        i != j,
        v.live(r),
    ensures
        !touches(v.free[i].1, v.free[j].1),
        disjoint(v.free[i].1, v.free[j].1),
        disjoint(v.free[i].1, r),
{
    if i < j {
        assert(apart(v.free[i].1, v.free[j].1));
    } else {
        assert(apart(v.free[j].1, v.free[i].1));
    }
    assert(v.records.contains_key(r.start));
    assert(v.record_ok(r.start));
    assert(entry_ok(v.free[i]) && entry_ok(v.free[j]));
}

/// The count of a live record is the number of ledger entries that refer
/// to it, over all processes, and is at least one; a range held by some
/// process is live.
pub proof fn law_refcount_counts_holders(v: AllocatorView, p: Process, i: int)
    requires
        v.wf(),
        v.ledger.contains_key(p),
        0 <= i < v.ledger[p].len(),
    ensures
        v.live(v.ledger[p][i]),
        v.records[v.ledger[p][i].start].refcount == holders(v.ledger, v.ledger[p][i]),
        v.records[v.ledger[p][i].start].refcount >= occurrences(v.ledger[p], v.ledger[p][i]),
        occurrences(v.ledger[p], v.ledger[p][i]) >= 1,
{
    let r = v.ledger[p][i];
    assert(v.live(r));
    assert(v.records.contains_key(r.start));
    assert(v.record_ok(r.start));
    lemma_holders_at_least(v.ledger, p, r);
    lemma_occurrences_positive(v.ledger[p], r);
}

/// The state after the live record of range `r` has been shared with each
/// of `targets` in turn.
pub open spec fn shared_with(v: AllocatorView, targets: Seq<Process>, r: Range<u32>) -> AllocatorView
    decreases targets.len(),
{
    if targets.len() == 0 {
        v
    } else {
        shared_with(v, targets.drop_last(), r).shared(targets.last(), r)
    }
}

/// After a record has been shared N times it counts N more.
pub proof fn law_shares_raise_the_count(v: AllocatorView, targets: Seq<Process>, r: Range<u32>)
    requires
        v.wf(),
        v.live(r),
        forall|k: int| 0 <= k < targets.len() ==> v.ledger.contains_key(#[trigger] targets[k]),
        v.records[r.start].refcount + targets.len() <= u32::MAX,
    ensures
        shared_with(v, targets, r).wf(),
        shared_with(v, targets, r).live(r),
        shared_with(v, targets, r).ledger.dom() == v.ledger.dom(),
        shared_with(v, targets, r).records[r.start].refcount == v.records[r.start].refcount
            + targets.len(),
        shared_with(v, targets, r).arena == v.arena,
        shared_with(v, targets, r).free == v.free,
    decreases targets.len(),
{
    if targets.len() > 0 {
        let before = targets.drop_last();
        assert forall|k: int| 0 <= k < before.len() implies v.ledger.contains_key(
            #[trigger] before[k],
        ) by {
            assert(before[k] == targets[k]);
        }
        law_shares_raise_the_count(v, before, r);
        let u = shared_with(v, before, r);
        assert(v.ledger.contains_key(targets[targets.len() - 1]));
        lemma_shared_wf(u, targets.last(), r);
        assert(u.shared(targets.last(), r).ledger.dom() =~= u.ledger.dom());
    }
}

/// A free by a holder reports a released reference exactly while the
/// record has other holders, and then leaves arena and free list alone
/// and takes one off the count. The free by the last holder removes the
/// record and reports that the block became free, alone or merged.
pub proof fn law_last_free_releases(
    v: AllocatorView,
    p: Process,
    start: u32,
    zeroize: bool,
    post: AllocatorView,
    res: Result<FreeBlock, AllocError>,
)
    requires
        v.wf(),
        v.ledger.contains_key(p),
        position(v.ledger[p], start) < v.ledger[p].len(),
        v.freed(p, start, zeroize, post, res),
    ensures
        v.records.contains_key(start),
        res is Ok,
        res == Ok::<FreeBlock, AllocError>(FreeBlock::RefcountDecreased)
            <==> v.records[start].refcount > 1,
        v.records[start].refcount > 1 ==> post.arena == v.arena && post.free == v.free
            && post.records[start].refcount == v.records[start].refcount - 1,
        v.records[start].refcount == 1 ==> !post.records.contains_key(start) && (res->Ok_0 is Free
            || res->Ok_0 is FreeMerge),
{
    lemma_first_index(v.ledger[p], starts_at(start));
    let i = position(v.ledger[p], start);
    assert(v.live(v.ledger[p][i]));
    assert(v.records.contains_key(start));
    assert(v.record_ok(start));
}

/// `states` are the states before, between and after a run of frees of
/// the block that starts at `start`: free number `j` is made by process
/// `by[j]`, which has an entry of the block, leads from `states[j]` to
/// `states[j + 1]` and has the result `results[j]`.
pub open spec fn frees_in_turn(
    states: Seq<AllocatorView>,
    by: Seq<Process>,
    start: u32,
    zeroize: bool,
    results: Seq<Result<FreeBlock, AllocError>>,
) -> bool {
    &&& states.len() == by.len() + 1
    &&& results.len() == by.len()
    &&& forall|j: int|
        #![trigger by[j]]
        0 <= j < by.len() ==> {
            &&& states[j].ledger.contains_key(by[j])
            &&& position(states[j].ledger[by[j]], start) < states[j].ledger[by[j]].len()
            &&& states[j].freed(by[j], start, zeroize, states[j + 1], results[j])
        }
}

/// Where a record counts as many references as frees follow, every free
/// but the last reports a released reference and leaves arena and free
/// list alone, and the last reports that the block became free, alone or
/// merged. After N shares of a new record these are the N + 1 frees of its
/// holders.
pub proof fn law_frees_count_down(
    states: Seq<AllocatorView>,
    by: Seq<Process>,
    start: u32,
    zeroize: bool,
    results: Seq<Result<FreeBlock, AllocError>>,
    j: int,
)
    requires
        states[0].wf(),
        states[0].records.contains_key(start),
        states[0].records[start].refcount == by.len(),
        frees_in_turn(states, by, start, zeroize, results),
        0 <= j < by.len(),
    ensures
        states[j].wf(),
        states[j].records.contains_key(start),
        states[j].records[start].refcount == by.len() - j,
        j < by.len() - 1 ==> results[j] == Ok::<FreeBlock, AllocError>(FreeBlock::RefcountDecreased)
            && states[j + 1].arena == states[j].arena && states[j + 1].free == states[j].free,
        j == by.len() - 1 ==> results[j] is Ok && (results[j]->Ok_0 is Free
            || results[j]->Ok_0 is FreeMerge) && !states[j + 1].records.contains_key(start),
    decreases j,
{
    if j > 0 {
        law_frees_count_down(states, by, start, zeroize, results, j - 1);
        let v = states[j - 1];
        let p = by[j - 1];
        lemma_first_index(v.ledger[p], starts_at(start));
        lemma_dropped_wf(v, p, position(v.ledger[p], start));
    }
    let v = states[j];
    let p = by[j];
    assert(v.ledger.contains_key(p));
    law_last_free_releases(v, p, start, zeroize, states[j + 1], results[j]);
}

/// A process without an entry that starts at `start` cannot free that
/// block, whoever else holds it: the free is refused and changes nothing.
pub proof fn law_free_needs_an_entry(
    v: AllocatorView,
    p: Process,
    start: u32,
    zeroize: bool,
    post: AllocatorView,
    res: Result<FreeBlock, AllocError>,
)
    requires
        v.ledger.contains_key(p),
        forall|i: int| 0 <= i < v.ledger[p].len() ==> (#[trigger] v.ledger[p][i]).start != start,
        v.freed(p, start, zeroize, post, res),
    ensures
        res == Err::<FreeBlock, AllocError>(AllocError::BlockNotFound),
        post == v,
{
    lemma_first_index(v.ledger[p], starts_at(start));
    let i = position(v.ledger[p], start);
    if i < v.ledger[p].len() {
        assert(starts_at(start)(v.ledger[p][i]));
    }
}

/// Whether a process may borrow a range is decided by its own entries
/// alone: it may exactly when one of them holds the whole range.
pub proof fn law_borrow_needs_an_entry(v: AllocatorView, p: Process, range: Range<u32>)
    requires
        v.ledger.contains_key(p),
    ensures
        first_index(v.ledger[p], enclosing(range)) < v.ledger[p].len() <==> exists|i: int|
            0 <= i < v.ledger[p].len() && contains(#[trigger] v.ledger[p][i], range),
{
    lemma_first_index(v.ledger[p], enclosing(range));
    let k = first_index(v.ledger[p], enclosing(range));
    if k < v.ledger[p].len() {
        assert(contains(v.ledger[p][k], range));
    }
    if exists|i: int| 0 <= i < v.ledger[p].len() && contains(#[trigger] v.ledger[p][i], range) {
        let i = choose|i: int|
            0 <= i < v.ledger[p].len() && contains(#[trigger] v.ledger[p][i], range);
        if k > i {
            assert(!enclosing(range)(v.ledger[p][i]));
        }
    }
}

/// What a process holds changes only by its own allocation and free and by
/// a share that names it as the target: the registration, allocation, free
/// and teardown of another process, and a share to another process, leave
/// its entries as they are.
pub proof fn law_entries_change_only_by_own_steps(
    v: AllocatorView,
    actor: Process,
    other: Process,
    size: u32,
    i: int,
    r: Range<u32>,
)
    requires
        v.ledger.contains_key(other),
        actor != other,
    ensures
        v.with_process(actor).ledger[other] == v.ledger[other],
        v.allocated(actor, size).ledger[other] == v.ledger[other],
        v.shared(actor, r).ledger[other] == v.ledger[other],
        v.ledger_without(actor, i)[other] == v.ledger[other],
        v.dropped(actor, i).ledger[other] == v.ledger[other],
        v.ledger.remove(actor)[other] == v.ledger[other],
        v.shared(other, r).ledger[other] == v.ledger[other].push(r),
{
}

/// After a teardown the process is unknown. A record that it held with
/// others is still live and counts less by the entries that the process
/// had of it. A record that only the process held is gone, and its bytes
/// are free bytes.
pub proof fn law_teardown_is_complete(v: AllocatorView, p: Process, post: AllocatorView, s: u32)
    requires
        v.wf(),
        v.ledger.contains_key(p),
        v.torn_down(p, post),
        v.records.contains_key(s),
    ensures
        !post.ledger.contains_key(p),
        occurrences(v.ledger[p], v.records[s].range) <= v.records[s].refcount,
        occurrences(v.ledger[p], v.records[s].range) < v.records[s].refcount ==> {
            &&& post.records.contains_key(s)
            &&& post.records[s].range == v.records[s].range
            &&& post.records[s].refcount == v.records[s].refcount - occurrences(
                v.ledger[p],
                v.records[s].range,
            )
        },
        occurrences(v.ledger[p], v.records[s].range) == v.records[s].refcount ==> {
            &&& !post.records.contains_key(s)
            &&& forall|x: int| holds(v.records[s].range, x) ==> #[trigger] covers(post.free, x)
        },
{
    let r = v.records[s].range;
    assert(v.record_ok(s));
    lemma_holders_at_least(v.ledger, p, r);
    if occurrences(v.ledger[p], r) == v.records[s].refcount {
        assert(v.spent(v.ledger[p], s));
        assert forall|x: int| holds(r, x) implies #[trigger] covers(post.free, x) by {
            assert(v.returned(v.ledger[p], x));
        }
    }
}

/// The first fit is the first entry, in list order, that is large enough:
/// every entry before it is too small, and the allocation begins where
/// that entry begins. Where no entry is large enough the allocation
/// begins at the end of the arena.
pub proof fn law_first_fit(v: AllocatorView, size: u32)
    ensures
        0 <= first_fit(v.free, size) <= v.free.len(),
        forall|j: int| 0 <= j < first_fit(v.free, size) ==> (#[trigger] v.free[j]).0 < size,
        first_fit(v.free, size) < v.free.len() ==> v.free[first_fit(v.free, size)].0 >= size
            && v.allocation(size) == block_at(
            v.free[first_fit(v.free, size)].1.start as int,
            size,
        ),
        first_fit(v.free, size) == v.free.len() ==> v.allocation(size) == block_at(
            v.arena.len() as int,
            size,
        ),
{
    lemma_first_index(v.free, fits(size));
    assert forall|j: int| 0 <= j < first_fit(v.free, size) implies (#[trigger] v.free[j]).0
        < size by {
        assert(!fits(size)(v.free[j]));
    }
}

/// A coalesced free list in ascending order is determined by its free
/// bytes: two such lists with the same free bytes are the same list.
pub proof fn law_coalesced_list_is_unique(f: Seq<FreeEntry>, g: Seq<FreeEntry>)
    requires
        all_ok(f),
        separated(f),
        ascending(f),
        all_ok(g),
        separated(g),
        ascending(g),
        forall|x: int| covers(f, x) <==> covers(g, x),
    ensures
        f == g,
    decreases f.len(),
{
    if f.len() == 0 || g.len() == 0 {
        if g.len() > 0 {
            assert(entry_ok(g[0]));
            assert(entry_holds(g[0], g[0].1.start as int));
            assert(covers(g, g[0].1.start as int));
        }
        if f.len() > 0 {
            assert(entry_ok(f[0]));
            assert(entry_holds(f[0], f[0].1.start as int));
            assert(covers(f, f[0].1.start as int));
        }
        assert(f =~= g);
    } else {
        lemma_heads_agree(f, g);
        lemma_heads_agree(g, f);
        assert(entry_ok(f[0]) && entry_ok(g[0]));
        assert(f[0] == g[0]);
        let ft = f.drop_first();
        let gt = g.drop_first();
        lemma_tail_covers(f, g);
        lemma_tail_covers(g, f);
        lemma_tail_coalesced(f);
        lemma_tail_coalesced(g);
        law_coalesced_list_is_unique(ft, gt);
        assert(f =~= seq![f[0]] + ft);
        assert(g =~= seq![g[0]] + gt);
    }
}

/// The first entry of `f` begins no earlier and ends no later than the
/// first entry of a list with the same free bytes.
proof fn lemma_heads_agree(f: Seq<FreeEntry>, g: Seq<FreeEntry>)
    requires
        all_ok(f),
        separated(f),
        ascending(f),
        all_ok(g),
        ascending(g),
        f.len() > 0,
        g.len() > 0,
        forall|x: int| covers(f, x) <==> covers(g, x),
    ensures
        g[0].1.start <= f[0].1.start,
        g[0].1.start == f[0].1.start ==> g[0].1.end <= f[0].1.end,
{
    let a = f[0];
    let b = g[0];
    assert(entry_ok(a) && entry_ok(b));
    assert(entry_holds(f[0], a.1.start as int));
    assert(covers(f, a.1.start as int));
    let j = choose|j: int| 0 <= j < g.len() && entry_holds(g[j], a.1.start as int);
    if j > 0 {
        assert(g[0].1.start < g[j].1.start);
    }
    if b.1.start == a.1.start && a.1.end < b.1.end {
        let x = a.1.end + 1;
        assert(entry_holds(g[0], x));
        assert(covers(g, x));
        let i = choose|i: int| 0 <= i < f.len() && entry_holds(f[i], x);
        assert(i > 0);
        assert(apart(f[0].1, f[i].1));
        assert(f[0].1.start < f[i].1.start);
    }
}

/// What is left of a coalesced ascending list without its first entry is
/// a coalesced ascending list.
proof fn lemma_tail_coalesced(f: Seq<FreeEntry>)
    requires
        all_ok(f),
        separated(f),
        ascending(f),
        f.len() > 0,
    ensures
        all_ok(f.drop_first()),
        separated(f.drop_first()),
        ascending(f.drop_first()),
{
    let t = f.drop_first();
    assert forall|i: int| 0 <= i < t.len() implies entry_ok(#[trigger] t[i]) by {
        assert(t[i] == f[i + 1]);
    }
    assert forall|i: int, j: int| #![trigger t[i], t[j]] 0 <= i < j < t.len() implies apart(
        t[i].1,
        t[j].1,
    ) && t[i].1.start < t[j].1.start by {
        assert(t[i] == f[i + 1] && t[j] == f[j + 1]);
    }
}

/// Where two coalesced ascending lists have the same free bytes and the
/// same first entry, a free byte of the rest of the one is a free byte of
/// the rest of the other.
proof fn lemma_tail_covers(f: Seq<FreeEntry>, g: Seq<FreeEntry>)
    requires
        all_ok(f),
        separated(f),
        ascending(f),
        all_ok(g),
        f.len() > 0,
        g.len() > 0,
        f[0] == g[0],
        forall|x: int| covers(f, x) <==> covers(g, x),
    ensures
        forall|x: int| covers(f.drop_first(), x) ==> covers(g.drop_first(), x),
{
    let ft = f.drop_first();
    let gt = g.drop_first();
    assert forall|x: int| covers(ft, x) implies covers(gt, x) by {
        let i = choose|i: int| 0 <= i < ft.len() && entry_holds(ft[i], x);
        assert(ft[i] == f[i + 1]);
        assert(entry_holds(f[i + 1], x));
        assert(covers(f, x));
        assert(apart(f[0].1, f[i + 1].1));
        assert(f[0].1.start < f[i + 1].1.start);
        assert(entry_ok(f[0]));
        let j = choose|j: int| 0 <= j < g.len() && entry_holds(g[j], x);
        assert(j > 0);
        assert(gt[j - 1] == g[j]);
        assert(entry_holds(gt[j - 1], x));
    }
}

/// A free has one outcome: two states and results that both satisfy the
/// description of the same free are the same state and the same result.
pub proof fn law_free_is_determined(
    v: AllocatorView,
    p: Process,
    start: u32,
    zeroize: bool,
    a: AllocatorView,
    ra: Result<FreeBlock, AllocError>,
    b: AllocatorView,
    rb: Result<FreeBlock, AllocError>,
)
    requires
        v.freed(p, start, zeroize, a, ra),
        v.freed(p, start, zeroize, b, rb),
    ensures
        a == b,
        ra == rb,
{
    if v.ledger.contains_key(p) {
        let i = position(v.ledger[p], start);
        if i != v.ledger[p].len() && v.records[v.ledger[p][i].start].refcount <= 1 {
            assert forall|x: int| covers(a.free, x) <==> covers(b.free, x) by {
                assert(covers(a.free, x) <==> covers(v.free, x) || holds(v.ledger[p][i], x));
                assert(covers(b.free, x) <==> covers(v.free, x) || holds(v.ledger[p][i], x));
            }
            law_coalesced_list_is_unique(a.free, b.free);
            assert(a =~= b);
        }
    }
}

/// A teardown has one outcome: two states that both satisfy the
/// description of the same teardown are the same state.
pub proof fn law_teardown_is_determined(
    v: AllocatorView,
    p: Process,
    a: AllocatorView,
    b: AllocatorView,
)
    requires
        v.torn_down(p, a),
        v.torn_down(p, b),
    ensures
        a == b,
{
    let held = v.ledger[p];
    if exists|s: u32| v.spent(held, s) {
        assert forall|x: int| covers(a.free, x) <==> covers(b.free, x) by {
            assert(covers(a.free, x) <==> covers(v.free, x) || v.returned(held, x));
            assert(covers(b.free, x) <==> covers(v.free, x) || v.returned(held, x));
        }
        law_coalesced_list_is_unique(a.free, b.free);
    }
    assert(a =~= b);
}

} // verus!
