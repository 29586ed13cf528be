//! The free list: reusable spans of the arena, searched first-fit and
//! coalesced eagerly.

use crate::search::{first_index, lemma_first_index_is};
use crate::span::{abuts, apart, contains, disjoint, holds, len, touches, valid};
use crate::types::FreeBlock;
use std::ops::Range;
use vstd::prelude::*;
use vstd::seq_lib::{to_multiset_contains, to_multiset_insert, to_multiset_remove};

verus! {

/// A free-list entry: the capacity of a span and the span itself.
pub type FreeEntry = (u32, Range<u32>);

/// The entry's span is valid, ends below the largest offset, and its
/// capacity is the length of the span.
pub open spec fn entry_ok(e: FreeEntry) -> bool {
    valid(e.1) && e.1.end < u32::MAX && e.0 == len(e.1)
}

/// The entry's span holds offset `x`.
pub open spec fn entry_holds(e: FreeEntry, x: int) -> bool {
    holds(e.1, x)
}

/// Every entry of the list is well formed.
pub open spec fn all_ok(f: Seq<FreeEntry>) -> bool {
    forall|i: int| 0 <= i < f.len() ==> entry_ok(#[trigger] f[i])
}

/// No two entries of the list overlap or are adjacent.
pub open spec fn separated(f: Seq<FreeEntry>) -> bool {
    forall|i: int, j: int| #![trigger f[i], f[j]] 0 <= i < j < f.len() ==> apart(f[i].1, f[j].1)
}

/// The entries come in strictly ascending order of start offset.
pub open spec fn ascending(f: Seq<FreeEntry>) -> bool {
    forall|i: int, j: int|
        #![trigger f[i], f[j]]
        0 <= i < j < f.len() ==> f[i].1.start < f[j].1.start
}

/// No entry of the list shares a byte with `r`.
pub open spec fn clear_of(f: Seq<FreeEntry>, r: Range<u32>) -> bool {
    forall|i: int| 0 <= i < f.len() ==> disjoint((#[trigger] f[i]).1, r)
}

/// Some entry of the list is adjacent to `r`.
pub open spec fn touched(f: Seq<FreeEntry>, r: Range<u32>) -> bool {
    exists|i: int| 0 <= i < f.len() && touches((#[trigger] f[i]).1, r)
}

/// Offset `x` is a free byte.
pub open spec fn covers(f: Seq<FreeEntry>, x: int) -> bool {
    exists|i: int| 0 <= i < f.len() && entry_holds(#[trigger] f[i], x)
}

/// Sum of the capacities of the list.
pub open spec fn total(f: Seq<FreeEntry>) -> int
    decreases f.len(),
{
    if f.len() == 0 {
        0
    } else {
        total(f.drop_last()) + f.last().0
    }
}

/// The entry can hold `size` bytes.
pub open spec fn fits(size: u32) -> spec_fn(FreeEntry) -> bool {
    |e: FreeEntry| e.0 >= size
}

/// Index of the first entry whose capacity is at least `size`, or the
/// length of the list when no entry is large enough.
pub open spec fn first_fit(f: Seq<FreeEntry>, size: u32) -> int {
    first_index(f, fits(size))
}

/// Finds the first entry that can hold `size` bytes.
pub fn find_first_fit(free: &Vec<FreeEntry>, size: u32) -> (found: Option<usize>)
    ensures
        match found {
            Some(i) => i < free@.len() && i == first_fit(free@, size),
            None => first_fit(free@, size) == free@.len(),
        },
{
    let mut i: usize = 0;
    while i < free.len()
        invariant
            i <= free@.len(),
            forall|j: int| 0 <= j < i ==> !fits(size)(#[trigger] free@[j]),
        decreases free@.len() - i,
    {
        if free[i].0 >= size {
            proof {
                lemma_first_index_is(free@, fits(size), i as int);
            }
            return Some(i);
        }
        i += 1;
    }
    proof {
        lemma_first_index_is(free@, fits(size), i as int);
    }
    None
}

/// Appending an entry adds its capacity to the sum.
pub proof fn lemma_total_push(f: Seq<FreeEntry>, e: FreeEntry)
    ensures
        total(f.push(e)) == total(f) + e.0,
{
    assert(f.push(e).drop_last() =~= f);
}

/// Inserting an entry anywhere adds its capacity to the sum.
pub proof fn lemma_total_insert(f: Seq<FreeEntry>, i: int, e: FreeEntry)
    requires
        0 <= i <= f.len(),
    ensures
        total(f.insert(i, e)) == total(f) + e.0,
    decreases f.len(),
{
    if i == f.len() {
        assert(f.insert(i, e) =~= f.push(e));
        lemma_total_push(f, e);
    } else {
        assert(f.insert(i, e).drop_last() =~= f.drop_last().insert(i, e));
        assert(f.insert(i, e).last() == f.last());
        lemma_total_insert(f.drop_last(), i, e);
    }
}

/// Removing an entry takes its capacity off the sum.
pub proof fn lemma_total_remove(f: Seq<FreeEntry>, i: int)
    requires
        0 <= i < f.len(),
    ensures
        total(f.remove(i)) == total(f) - f[i].0,
{
    let g = f.remove(i);
    assert(g.insert(i, f[i]) =~= f);
    lemma_total_insert(g, i, f[i]);
}

/// Replacing an entry changes the sum by the difference of capacities.
pub proof fn lemma_total_update(f: Seq<FreeEntry>, i: int, e: FreeEntry)
    requires
        0 <= i < f.len(),
    ensures
        total(f.update(i, e)) == total(f) - f[i].0 + e.0,
{
    lemma_total_remove(f, i);
    assert(f.remove(i).insert(i, e) =~= f.update(i, e));
    lemma_total_insert(f.remove(i), i, e);
}

/// No two entries of the list begin at the same offset.
pub open spec fn distinct_starts(f: Seq<FreeEntry>) -> bool {
    forall|i: int, j: int|
        #![trigger f[i], f[j]]
        0 <= i < j < f.len() ==> f[i].1.start != f[j].1.start
}

/// Rearranges the list in ascending order of start offset.
pub fn sort_by_start(free: &mut Vec<FreeEntry>)
    requires
        distinct_starts(old(free)@),
    ensures
        ascending(final(free)@),
        final(free)@.to_multiset() == old(free)@.to_multiset(),
        final(free)@.len() == old(free)@.len(),
        total(final(free)@) == total(old(free)@),
{
    let ghost orig = free@;
    let mut out: Vec<FreeEntry> = Vec::new();
    proof {
        assert(out@.to_multiset().add(free@.to_multiset()) =~= orig.to_multiset()) by {
            broadcast use vstd::seq_lib::group_to_multiset_ensures;
            assert(out@.to_multiset() =~= vstd::multiset::Multiset::<FreeEntry>::empty());
        }
    }
    while free.len() > 0
        invariant
            distinct_starts(orig),
            ascending(out@),
            free@ == orig.take(free@.len() as int),
            free@.len() <= orig.len(),
            out@.len() + free@.len() == orig.len(),
            out@.to_multiset().add(free@.to_multiset()) == orig.to_multiset(),
            total(out@) + total(free@) == total(orig),
            forall|i: int|
                0 <= i < out@.len() ==> exists|k: int|
                    free@.len() <= k < orig.len() && orig[k] == #[trigger] out@[i],
        decreases free@.len(),
    {
        let ghost before = free@;
        let ghost sorted = out@;
        let n = free.len();
        let e = free.pop().unwrap();
        assert(e == orig[n - 1]);
        assert(free@ =~= orig.take(n - 1));
        assert(free@ =~= before.remove(n - 1));
        let mut k: usize = 0;
        while k < out.len() && out[k].1.start < e.1.start
            invariant
                k <= out@.len(),
                forall|j: int| 0 <= j < k ==> (#[trigger] out@[j]).1.start < e.1.start,
            decreases out@.len() - k,
        {
            k += 1;
        }
        proof {
            assert forall|j: int| k <= j < sorted.len() implies e.1.start < (#[trigger]
                sorted[j]).1.start by {
                let w = choose|w: int| n <= w < orig.len() && orig[w] == sorted[j];
                assert(orig[n - 1].1.start != orig[w].1.start);
                assert(sorted[k as int].1.start >= e.1.start);
                if j > k {
                    assert(sorted[k as int].1.start < sorted[j].1.start);
                }
            }
            to_multiset_insert(sorted, k as int, e);
            to_multiset_remove(before, n - 1);
            to_multiset_contains(before, e);
            assert(before[n - 1] == e);
            assert(before.contains(e));
            lemma_total_insert(sorted, k as int, e);
            assert(before.drop_last() =~= free@);
        }
        out.insert(k, e);
        proof {
            assert(out@.to_multiset().add(free@.to_multiset()) =~= orig.to_multiset());
            assert forall|i: int| 0 <= i < out@.len() implies exists|w: int|
                free@.len() <= w < orig.len() && orig[w] == #[trigger] out@[i] by {
                if i < k {
                    let w = choose|w: int| n <= w < orig.len() && orig[w] == sorted[i];
                    assert(orig[w] == out@[i]);
                } else if i == k {
                    assert(orig[n - 1] == out@[i]);
                } else {
                    let w = choose|w: int| n <= w < orig.len() && orig[w] == sorted[i - 1];
                    assert(orig[w] == out@[i]);
                }
            }
        }
    }
    proof {
        assert(free@ =~= Seq::<FreeEntry>::empty());
        assert(out@.to_multiset().add(free@.to_multiset()) =~= out@.to_multiset()) by {
            broadcast use vstd::seq_lib::group_to_multiset_ensures;
            assert(free@.to_multiset() =~= vstd::multiset::Multiset::<FreeEntry>::empty());
        }
    }
    *free = out;
}

/// The free-list entry that describes exactly the span `r`.
pub open spec fn entry_of(r: Range<u32>) -> FreeEntry {
    (len(r) as u32, r)
}

/// What is known of the list once the entry of a released block has been
/// appended and the list sorted.
#[verifier::opaque]
pub open spec fn staged(before: Seq<FreeEntry>, block: Range<u32>, s: Seq<FreeEntry>) -> bool {
    &&& s.len() == before.len() + 1
    &&& ascending(s)
    &&& all_ok(s)
    &&& forall|i: int, j: int| #![trigger s[i], s[j]] 0 <= i < j < s.len() ==> disjoint(s[i].1, s[j].1)
    &&& forall|i: int, j: int|
        #![trigger s[i], s[j]]
        0 <= i < j < s.len() && s[i] != entry_of(block) && s[j] != entry_of(block) ==> apart(
            s[i].1,
            s[j].1,
        )
    &&& forall|i: int|
        0 <= i < s.len() ==> (#[trigger] s[i]) == entry_of(block) || before.contains(s[i])
    &&& forall|m: int| 0 <= m < before.len() ==> s.contains(#[trigger] before[m])
    &&& s.contains(entry_of(block))
}

proof fn lemma_staged(before: Seq<FreeEntry>, block: Range<u32>, s: Seq<FreeEntry>)
    requires
        all_ok(before),
        separated(before),
        clear_of(before, block),
        valid(block),
        block.end < u32::MAX,
        ascending(s),
        s.len() == before.len() + 1,
        s.to_multiset() == before.push(entry_of(block)).to_multiset(),
    ensures
        staged(before, block, s),
        all_ok(s),
{
    reveal(staged);
    let e = entry_of(block);
    let pushed = before.push(e);
    assert forall|a: FreeEntry| s.contains(a) <==> pushed.contains(a) by {
        to_multiset_contains(s, a);
        to_multiset_contains(pushed, a);
    }
    assert forall|i: int| 0 <= i < s.len() implies (#[trigger] s[i]) == e || before.contains(
        s[i],
    ) by {
        assert(s.contains(s[i]));
        assert(pushed.contains(s[i]));
        let w = choose|w: int| 0 <= w < pushed.len() && pushed[w] == s[i];
        if w < before.len() {
            assert(before[w] == s[i]);
        }
    }
    assert forall|m: int| 0 <= m < before.len() implies s.contains(#[trigger] before[m]) by {
        assert(pushed[m] == before[m]);
        assert(pushed.contains(before[m]));
    }
    assert(s.contains(e)) by {
        assert(pushed[before.len() as int] == e);
        assert(pushed.contains(e));
    }
    assert forall|i: int| 0 <= i < s.len() implies entry_ok(#[trigger] s[i]) by {
        if s[i] != e {
            let w = choose|w: int| 0 <= w < before.len() && before[w] == s[i];
            assert(entry_ok(before[w]));
        }
    }
    assert forall|i: int, j: int| #![trigger s[i], s[j]] 0 <= i < j < s.len() implies disjoint(
        s[i].1,
        s[j].1,
    ) && (s[i] != e && s[j] != e ==> apart(s[i].1, s[j].1)) by {
        assert(s[i].1.start < s[j].1.start);
        if s[i] == e {
            let w = choose|w: int| 0 <= w < before.len() && before[w] == s[j];
            assert(disjoint(before[w].1, block));
        } else if s[j] == e {
            let w = choose|w: int| 0 <= w < before.len() && before[w] == s[i];
            assert(disjoint(before[w].1, block));
        } else {
            let a = choose|a: int| 0 <= a < before.len() && before[a] == s[i];
            let b = choose|b: int| 0 <= b < before.len() && before[b] == s[j];
            if a < b {
                assert(apart(before[a].1, before[b].1));
            } else if b < a {
                assert(apart(before[b].1, before[a].1));
            }
        }
    }
}

/// The staged list has the free bytes of the old list and of the block.
proof fn lemma_staged_covers(before: Seq<FreeEntry>, block: Range<u32>, s: Seq<FreeEntry>)
    requires
        staged(before, block, s),
    ensures
        forall|x: int| covers(s, x) <==> covers(before, x) || holds(block, x),
{
    reveal(staged);
    let e = entry_of(block);
    assert forall|x: int| covers(s, x) <==> covers(before, x) || holds(block, x) by {
        if covers(s, x) {
            let i = choose|i: int| 0 <= i < s.len() && entry_holds(s[i], x);
            if s[i] != e {
                let w = choose|w: int| 0 <= w < before.len() && before[w] == s[i];
                assert(entry_holds(before[w], x));
            }
        }
        if covers(before, x) {
            let m = choose|m: int| 0 <= m < before.len() && entry_holds(before[m], x);
            assert(s.contains(before[m]));
            let i = choose|i: int| 0 <= i < s.len() && s[i] == before[m];
            assert(entry_holds(s[i], x));
        }
        if holds(block, x) {
            let i = choose|i: int| 0 <= i < s.len() && s[i] == e;
            assert(entry_holds(s[i], x));
        }
    }
}

/// While the block's entry has not been met, it lies further on.
proof fn lemma_staged_locate(before: Seq<FreeEntry>, block: Range<u32>, s: Seq<FreeEntry>, k: int)
    requires
        staged(before, block, s),
        0 <= k < s.len(),
        forall|j: int| 0 <= j < k ==> (#[trigger] s[j]) != entry_of(block),
    ensures
        s[k].1.start == block.start ==> s[k] == entry_of(block),
        s[k].1.start != block.start ==> k + 1 < s.len(),
{
    reveal(staged);
    let w = choose|w: int| 0 <= w < s.len() && s[w] == entry_of(block);
    if w < k {
        assert(s[w] != entry_of(block));
    }
    if w > k {
        assert(s[k].1.start < s[w].1.start);
    }
}

/// What is known of the entries next to the block's entry at `k`: only
/// they can be adjacent to the block, and no other entry is the block's.
#[verifier::opaque]
pub open spec fn centred(s: Seq<FreeEntry>, block: Range<u32>, k: int) -> bool {
    &&& 0 <= k < s.len()
    &&& s[k] == entry_of(block)
    &&& forall|m: int| 0 <= m < s.len() && abuts((#[trigger] s[m]).1, block) ==> m == k - 1
    &&& forall|m: int| 0 <= m < s.len() && abuts(block, (#[trigger] s[m]).1) ==> m == k + 1
    &&& forall|m: int| 0 <= m < s.len() && m != k ==> (#[trigger] s[m]) != entry_of(block)
}

proof fn lemma_centred(before: Seq<FreeEntry>, block: Range<u32>, s: Seq<FreeEntry>, k: int)
    requires
        staged(before, block, s),
        valid(block),
        0 <= k < s.len(),
        s[k] == entry_of(block),
    ensures
        centred(s, block, k),
{
    reveal(staged);
    reveal(centred);
    assert forall|m: int| 0 <= m < s.len() && abuts((#[trigger] s[m]).1, block) implies m == k
        - 1 by {
        assert(entry_ok(s[m]));
        if m > k {
            assert(s[k].1.start < s[m].1.start);
        } else if m < k - 1 {
            assert(s[m].1.start < s[k - 1].1.start);
            assert(s[k - 1].1.start < s[k].1.start);
            assert(disjoint(s[m].1, s[k - 1].1));
            assert(entry_ok(s[k - 1]));
        }
    }
    assert forall|m: int| 0 <= m < s.len() && abuts(block, (#[trigger] s[m]).1) implies m == k
        + 1 by {
        assert(entry_ok(s[m]));
        if m < k {
            assert(s[m].1.start < s[k].1.start);
        } else if m > k + 1 {
            assert(s[k].1.start < s[k + 1].1.start);
            assert(s[k + 1].1.start < s[m].1.start);
            assert(disjoint(s[k].1, s[k + 1].1));
            assert(entry_ok(s[k + 1]));
        }
    }
    assert forall|m: int| 0 <= m < s.len() && m != k implies (#[trigger] s[m]) != entry_of(
        block,
    ) by {
        if m < k {
            assert(s[m].1.start < s[k].1.start);
        } else {
            assert(s[k].1.start < s[m].1.start);
        }
    }
}

/// The single entry that spans from the start of `a` to the end of `b`.
pub open spec fn span_entry(a: FreeEntry, b: FreeEntry) -> FreeEntry {
    ((b.1.end - a.1.start + 1) as u32, Range { start: a.1.start, end: b.1.end })
}

/// The list `s` with the entries `lo..=hi` replaced by the one entry that
/// spans them.
pub open spec fn joined(s: Seq<FreeEntry>, lo: int, hi: int) -> Seq<FreeEntry> {
    s.subrange(0, lo).push(span_entry(s[lo], s[hi])) + s.subrange(hi + 1, s.len() as int)
}

/// The block's entry is at `k`, and `lo..=hi` is the run of mutually
/// adjacent entries around it.
pub open spec fn run_around(s: Seq<FreeEntry>, block: Range<u32>, k: int, lo: int, hi: int) -> bool {
    &&& 0 <= lo <= k <= hi < s.len()
    &&& s[k] == entry_of(block)
    &&& k - 1 <= lo
    &&& hi <= k + 1
    &&& lo == k - 1 <==> k > 0 && abuts(s[k - 1].1, block)
    &&& hi == k + 1 <==> k + 1 < s.len() && abuts(block, s[k + 1].1)
}

/// Without an adjacent neighbour the staged list is already coalesced.
proof fn lemma_alone(before: Seq<FreeEntry>, block: Range<u32>, s: Seq<FreeEntry>, k: int)
    requires
        staged(before, block, s),
        valid(block),
        run_around(s, block, k, k, k),
    ensures
        separated(s),
        !touched(before, block),
        s.contains(entry_of(block)),
{
    lemma_centred(before, block, s, k);
    reveal(staged);
    reveal(centred);
    assert forall|i: int, j: int| #![trigger s[i], s[j]] 0 <= i < j < s.len() implies apart(
        s[i].1,
        s[j].1,
    ) by {
        assert(disjoint(s[i].1, s[j].1));
        assert(s[i].1.start < s[j].1.start);
        assert(entry_ok(s[i]) && entry_ok(s[j]));
    }
    if touched(before, block) {
        let m = choose|m: int| 0 <= m < before.len() && touches(before[m].1, block);
        assert(s.contains(before[m]));
        let i = choose|i: int| 0 <= i < s.len() && s[i] == before[m];
        assert(abuts(s[i].1, block) || abuts(block, s[i].1));
    }
}

/// Element by element, what `joined` holds.
proof fn lemma_joined_shape(s: Seq<FreeEntry>, lo: int, hi: int)
    requires
        0 <= lo < hi < s.len(),
    ensures
        joined(s, lo, hi).len() == s.len() - (hi - lo),
        forall|i: int|
            0 <= i < joined(s, lo, hi).len() ==> #[trigger] joined(s, lo, hi)[i] == (if i < lo {
                s[i]
            } else if i == lo {
                span_entry(s[lo], s[hi])
            } else {
                s[i + (hi - lo)]
            }),
{
}

/// The joined list is made of well-formed entries in ascending order.
proof fn lemma_joined_ascending(
    before: Seq<FreeEntry>,
    block: Range<u32>,
    s: Seq<FreeEntry>,
    k: int,
    lo: int,
    hi: int,
)
    requires
        staged(before, block, s),
        valid(block),
        block.end < u32::MAX,
        run_around(s, block, k, lo, hi),
        lo < hi,
    ensures
        all_ok(joined(s, lo, hi)),
        ascending(joined(s, lo, hi)),
        entry_ok(span_entry(s[lo], s[hi])),
        contains(span_entry(s[lo], s[hi]).1, block),
{
    reveal(staged);
    lemma_joined_shape(s, lo, hi);
    let g = joined(s, lo, hi);
    let d = hi - lo;
    assert(entry_ok(s[lo]) && entry_ok(s[hi]) && entry_ok(s[k]));
    assert(s[lo].1.start < s[hi].1.start);
    assert forall|i: int| 0 <= i < g.len() implies entry_ok(#[trigger] g[i]) by {
        if i < lo {
            assert(entry_ok(s[i]));
        } else if i > lo {
            assert(entry_ok(s[i + d]));
        }
    }
    assert forall|i: int, j: int| #![trigger g[i], g[j]] 0 <= i < j < g.len() implies g[i].1.start
        < g[j].1.start by {
        let a = if i <= lo { i } else { i + d };
        let b = if j <= lo { j } else { j + d };
        assert(s[a].1.start < s[b].1.start);
    }
}

/// No two entries of the joined list overlap or are adjacent.
proof fn lemma_joined_separated(
    before: Seq<FreeEntry>,
    block: Range<u32>,
    s: Seq<FreeEntry>,
    k: int,
    lo: int,
    hi: int,
)
    requires
        staged(before, block, s),
        valid(block),
        block.end < u32::MAX,
        run_around(s, block, k, lo, hi),
        lo < hi,
    ensures
        separated(joined(s, lo, hi)),
{
    lemma_centred(before, block, s, k);
    reveal(staged);
    reveal(centred);
    lemma_joined_shape(s, lo, hi);
    let g = joined(s, lo, hi);
    let d = hi - lo;
    assert(entry_ok(s[lo]) && entry_ok(s[hi]) && entry_ok(s[k]));
    assert forall|i: int, j: int| #![trigger g[i], g[j]] 0 <= i < j < g.len() implies apart(
        g[i].1,
        g[j].1,
    ) by {
        if j < lo || i > lo {
            let a = if i <= lo { i } else { i + d };
            let b = if j <= lo { j } else { j + d };
            assert(s[a] != entry_of(block) && s[b] != entry_of(block));
            assert(apart(s[a].1, s[b].1));
        } else if j == lo {
            assert(entry_ok(s[i]));
            assert(s[i].1.start < s[lo].1.start);
            assert(disjoint(s[i].1, s[lo].1));
            if lo == k {
                assert(!abuts(s[i].1, block));
            } else {
                assert(s[i] != entry_of(block) && s[lo] != entry_of(block));
                assert(apart(s[i].1, s[lo].1));
            }
        } else {
            let b = j + d;
            assert(entry_ok(s[b]));
            assert(s[hi].1.start < s[b].1.start);
            assert(disjoint(s[hi].1, s[b].1));
            if hi == k {
                assert(!abuts(block, s[b].1));
            } else {
                assert(s[hi] != entry_of(block) && s[b] != entry_of(block));
                assert(apart(s[hi].1, s[b].1));
            }
        }
    }
}

/// The joined list has the free bytes of the staged list.
proof fn lemma_joined_covers(
    before: Seq<FreeEntry>,
    block: Range<u32>,
    s: Seq<FreeEntry>,
    k: int,
    lo: int,
    hi: int,
)
    requires
        staged(before, block, s),
        valid(block),
        block.end < u32::MAX,
        run_around(s, block, k, lo, hi),
        lo < hi,
    ensures
        forall|x: int| covers(joined(s, lo, hi), x) <==> covers(s, x),
{
    reveal(staged);
    lemma_joined_shape(s, lo, hi);
    let g = joined(s, lo, hi);
    let d = hi - lo;
    assert(entry_ok(s[lo]) && entry_ok(s[hi]) && entry_ok(s[k]));
    assert(s[lo].1.start < s[hi].1.start);
    assert forall|x: int| covers(g, x) <==> covers(s, x) by {
        if covers(g, x) {
            let i = choose|i: int| 0 <= i < g.len() && entry_holds(g[i], x);
            if i < lo {
                assert(entry_holds(s[i], x));
            } else if i > lo {
                assert(entry_holds(s[i + d], x));
            } else {
                if x <= s[lo].1.end {
                    assert(entry_holds(s[lo], x));
                } else if x >= s[hi].1.start {
                    assert(entry_holds(s[hi], x));
                } else {
                    assert(entry_holds(s[k], x));
                }
            }
        }
        if covers(s, x) {
            let i = choose|i: int| 0 <= i < s.len() && entry_holds(s[i], x);
            if i < lo {
                assert(entry_holds(g[i], x));
            } else if i > hi {
                assert(entry_holds(g[i - d], x));
            } else {
                assert(entry_ok(s[i]));
                if lo < i {
                    assert(s[lo].1.start < s[i].1.start);
                }
                if i < hi {
                    assert(s[i].1.start < s[hi].1.start);
                    assert(disjoint(s[i].1, s[hi].1));
                }
                assert(entry_holds(g[lo], x));
            }
        }
    }
}

/// The joined list is the staged list after the run has been removed,
/// entry by entry, and the spanning entry inserted in its place; the sum
/// of capacities is kept.
proof fn lemma_joined_total(
    before: Seq<FreeEntry>,
    block: Range<u32>,
    s: Seq<FreeEntry>,
    k: int,
    lo: int,
    hi: int,
)
    requires
        staged(before, block, s),
        valid(block),
        block.end < u32::MAX,
        run_around(s, block, k, lo, hi),
        lo < hi,
    ensures
        total(joined(s, lo, hi)) == total(s),
        hi - lo == 1 ==> joined(s, lo, hi) == s.remove(lo).remove(lo).insert(
            lo,
            span_entry(s[lo], s[hi]),
        ),
        hi - lo == 2 ==> joined(s, lo, hi) == s.remove(lo).remove(lo).remove(lo).insert(
            lo,
            span_entry(s[lo], s[hi]),
        ),
{
    reveal(staged);
    let g = joined(s, lo, hi);
    let m = span_entry(s[lo], s[hi]);
    assert(entry_ok(s[lo]) && entry_ok(s[hi]) && entry_ok(s[k]));
    let r1 = s.remove(lo);
    lemma_total_remove(s, lo);
    let r2 = r1.remove(lo);
    lemma_total_remove(r1, lo);
    if hi - lo == 1 {
        assert(r2.insert(lo, m) =~= g);
        lemma_total_insert(r2, lo, m);
    } else {
        let r3 = r2.remove(lo);
        lemma_total_remove(r2, lo);
        assert(r3.insert(lo, m) =~= g);
        lemma_total_insert(r3, lo, m);
    }
}

/// A run of two or more entries holds an old entry adjacent to the block.
proof fn lemma_joined_touched(
    before: Seq<FreeEntry>,
    block: Range<u32>,
    s: Seq<FreeEntry>,
    k: int,
    lo: int,
    hi: int,
)
    requires
        staged(before, block, s),
        valid(block),
        run_around(s, block, k, lo, hi),
        lo < hi,
    ensures
        touched(before, block),
{
    lemma_centred(before, block, s, k);
    reveal(staged);
    reveal(centred);
    let t = if lo == k - 1 { lo } else { hi };
    assert(s[t] != entry_of(block));
    assert(before.contains(s[t]));
    let w = choose|w: int| 0 <= w < before.len() && before[w] == s[t];
    assert(touches(before[w].1, block));
}

/// Returns a block to the free list and coalesces eagerly.
///
/// The entry of the block is appended, the list is sorted by start offset,
/// and the run of adjacent entries around the block, if there is one, is
/// replaced by a single entry that spans it.
pub fn release(free: &mut Vec<FreeEntry>, block: Range<u32>) -> (outcome: FreeBlock)
    requires
        all_ok(old(free)@),
        separated(old(free)@),
        clear_of(old(free)@, block),
        valid(block),
        block.end < u32::MAX,
    ensures
        all_ok(final(free)@),
        separated(final(free)@),
        ascending(final(free)@),
        forall|x: int|
            #![trigger covers(final(free)@, x)]
            #![trigger covers(old(free)@, x)]
            #![trigger holds(block, x)]
            covers(final(free)@, x) <==> covers(old(free)@, x) || holds(block, x),
        total(final(free)@) == total(old(free)@) + len(block),
        match outcome {
            FreeBlock::Free(n) => n == len(block) && !touched(old(free)@, block)
                && final(free)@.contains(entry_of(block)),
            FreeBlock::FreeMerge(n) => touched(old(free)@, block) && exists|j: int|
                0 <= j < final(free)@.len() && (#[trigger] final(free)@[j]).0 == n && contains(
                    final(free)@[j].1,
                    block,
                ),
            FreeBlock::RefcountDecreased => false,
        },
{
    let ghost before = free@;
    let start: u32 = block.start;
    let end: u32 = block.end;
    let size: u32 = end - start + 1;
    free.push((size, block));
    proof {
        lemma_pushed_distinct(before, block);
        lemma_total_push(before, entry_of(block));
    }
    sort_by_start(free);
    let ghost s = free@;
    proof {
        lemma_staged(before, block, s);
        lemma_staged_covers(before, block, s);
    }
    let n: usize = free.len();
    let mut k: usize = 0;
    proof {
        lemma_staged_locate(before, block, s, 0);
    }
    while free[k].1.start != start
        invariant
            free@ == s,
            n == s.len(),
            k < n,
            start == block.start,
            staged(before, block, s),
            forall|j: int| 0 <= j < k ==> (#[trigger] s[j]) != entry_of(block),
            s[k as int].1.start == block.start ==> s[k as int] == entry_of(block),
            s[k as int].1.start != block.start ==> k + 1 < s.len(),
        decreases n - k,
    {
        k += 1;
        proof {
            lemma_staged_locate(before, block, s, k as int);
        }
    }
    assert(k > 0 ==> entry_ok(s[k - 1]));
    let left: bool = k > 0 && free[k - 1].1.end + 1 == start;
    let right: bool = k + 1 < n && end + 1 == free[k + 1].1.start;
    if !left && !right {
        proof {
            lemma_alone(before, block, s, k as int);
        }
        return FreeBlock::Free(size);
    }
    let lo: usize = if left { k - 1 } else { k };
    let hi: usize = if right { k + 1 } else { k };
    proof {
        lemma_joined_ascending(before, block, s, k as int, lo as int, hi as int);
        lemma_joined_separated(before, block, s, k as int, lo as int, hi as int);
        lemma_joined_covers(before, block, s, k as int, lo as int, hi as int);
        lemma_joined_total(before, block, s, k as int, lo as int, hi as int);
        lemma_joined_touched(before, block, s, k as int, lo as int, hi as int);
        lemma_joined_shape(s, lo as int, hi as int);
    }
    let first = free.remove(lo);
    let second = free.remove(lo);
    let mut last_end: u32 = second.1.end;
    if hi - lo == 2 {
        let third = free.remove(lo);
        last_end = third.1.end;
    }
    let cap: u32 = last_end - first.1.start + 1;
    free.insert(lo, (cap, first.1.start..last_end));
    assert(free@ == joined(s, lo as int, hi as int));
    assert(free@[lo as int].0 == cap);
    FreeBlock::FreeMerge(cap)
}

/// After the block's entry has been appended no two entries begin at the
/// same offset.
proof fn lemma_pushed_distinct(before: Seq<FreeEntry>, block: Range<u32>)
    requires
        all_ok(before),
        separated(before),
        clear_of(before, block),
        valid(block),
    ensures
        distinct_starts(before.push(entry_of(block))),
{
    let pushed = before.push(entry_of(block));
    assert forall|i: int, j: int| #![trigger pushed[i], pushed[j]] 0 <= i < j
        < pushed.len() implies pushed[i].1.start != pushed[j].1.start by {
        assert(entry_ok(before[i]));
        if j < before.len() {
            assert(apart(before[i].1, before[j].1));
            assert(entry_ok(before[j]));
        } else {
            assert(disjoint(before[i].1, block));
        }
    }
}

} // verus!
