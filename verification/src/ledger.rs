//! Counting over the ownership ledger: how often a process holds a range,
//! how many holders a range has over all processes, and how many bytes the
//! live records take.

use crate::span::len;
use crate::types::{MemRange, Process};
use std::ops::Range;
use vstd::prelude::*;

verus! {

/// How many entries of `held` are the range `r`.
pub open spec fn occurrences(held: Seq<Range<u32>>, r: Range<u32>) -> nat
    decreases held.len(),
{
    if held.len() == 0 {
        0
    } else {
        occurrences(held.drop_last(), r) + if held.last() == r {
            1nat
        } else {
            0nat
        }
    }
}

/// How many entries process number `id` holds of `r`; zero for a process
/// that is not registered.
pub open spec fn held_by(ledger: Map<Process, Seq<Range<u32>>>, id: u32, r: Range<u32>) -> nat {
    if ledger.contains_key(Process(id)) {
        occurrences(ledger[Process(id)], r)
    } else {
        0
    }
}

/// How many ledger entries of processes numbered below `n` are the range `r`.
pub open spec fn holders_below(ledger: Map<Process, Seq<Range<u32>>>, r: Range<u32>, n: nat) -> nat
    decreases n,
{
    if n == 0 {
        0
    } else {
        holders_below(ledger, r, (n - 1) as nat) + held_by(ledger, (n - 1) as u32, r)
    }
}

/// How many ledger entries, over all processes, are the range `r`.
pub open spec fn holders(ledger: Map<Process, Seq<Range<u32>>>, r: Range<u32>) -> nat {
    holders_below(ledger, r, 0x1_0000_0000)
}

/// Bytes of the record that starts at `start`; zero where there is none.
pub open spec fn bytes_at(records: Map<u32, MemRange>, start: u32) -> int {
    if records.contains_key(start) {
        len(records[start].range)
    } else {
        0
    }
}

/// Bytes of the records that start below `n`.
pub open spec fn live_bytes_below(records: Map<u32, MemRange>, n: nat) -> int
    decreases n,
{
    if n == 0 {
        0
    } else {
        live_bytes_below(records, (n - 1) as nat) + bytes_at(records, (n - 1) as u32)
    }
}

/// Bytes of all records, each counted once.
pub open spec fn live_bytes(records: Map<u32, MemRange>) -> int {
    live_bytes_below(records, 0x1_0000_0000)
}

/// Appending an entry adds one occurrence of exactly that range.
pub proof fn lemma_occurrences_push(held: Seq<Range<u32>>, e: Range<u32>, r: Range<u32>)
    ensures
        occurrences(held.push(e), r) == occurrences(held, r) + if e == r {
            1nat
        } else {
            0nat
        },
{
    assert(held.push(e).drop_last() =~= held);
}

/// Replacing an entry moves one occurrence from the old range to the new.
pub proof fn lemma_occurrences_update(held: Seq<Range<u32>>, i: int, e: Range<u32>, r: Range<u32>)
    requires
        0 <= i < held.len(),
    ensures
        occurrences(held.update(i, e), r) + (if held[i] == r {
            1nat
        } else {
            0nat
        }) == occurrences(held, r) + if e == r {
            1nat
        } else {
            0nat
        },
    decreases held.len(),
{
    if i == held.len() - 1 {
        assert(held.update(i, e).drop_last() =~= held.drop_last());
    } else {
        assert(held.update(i, e).drop_last() =~= held.drop_last().update(i, e));
        lemma_occurrences_update(held.drop_last(), i, e, r);
    }
}

/// Moving the last entry over entry `i` and shortening the list takes away
/// one occurrence of the range that was at `i`.
pub proof fn lemma_occurrences_swap_remove(held: Seq<Range<u32>>, i: int, r: Range<u32>)
    requires
        0 <= i < held.len(),
    ensures
        occurrences(held.update(i, held.last()).drop_last(), r) + (if held[i] == r {
            1nat
        } else {
            0nat
        }) == occurrences(held, r),
{
    lemma_occurrences_update(held, i, held.last(), r);
    assert(held.update(i, held.last()).last() == held.last());
}

/// A range occurs in the list exactly when some entry is that range.
pub proof fn lemma_occurrences_positive(held: Seq<Range<u32>>, r: Range<u32>)
    ensures
        occurrences(held, r) > 0 <==> exists|i: int| 0 <= i < held.len() && held[i] == r,
        occurrences(held, r) <= held.len(),
    decreases held.len(),
{
    if held.len() > 0 {
        let rest = held.drop_last();
        lemma_occurrences_positive(rest, r);
        if occurrences(held, r) > 0 {
            if held.last() == r {
                assert(held[held.len() - 1] == r);
            } else {
                let i = choose|i: int| 0 <= i < rest.len() && rest[i] == r;
                assert(held[i] == r);
            }
        }
        if exists|i: int| 0 <= i < held.len() && held[i] == r {
            let i = choose|i: int| 0 <= i < held.len() && held[i] == r;
            if i < held.len() - 1 {
                assert(rest[i] == r);
            }
        }
    }
}

/// A longer prefix of the list has one more occurrence of the entry it
/// gained, and as many of every other range.
pub proof fn lemma_occurrences_take(held: Seq<Range<u32>>, i: int, r: Range<u32>)
    requires
        0 <= i < held.len(),
    ensures
        occurrences(held.take(i + 1), r) == occurrences(held.take(i), r) + if held[i] == r {
            1nat
        } else {
            0nat
        },
{
    assert(held.take(i + 1) =~= held.take(i).push(held[i]));
    lemma_occurrences_push(held.take(i), held[i], r);
}

/// A prefix of the list has no more occurrences than the list.
pub proof fn lemma_occurrences_prefix(held: Seq<Range<u32>>, i: int, r: Range<u32>)
    requires
        0 <= i <= held.len(),
    ensures
        occurrences(held.take(i), r) <= occurrences(held, r),
    decreases held.len() - i,
{
    if i < held.len() {
        lemma_occurrences_take(held, i, r);
        lemma_occurrences_prefix(held, i + 1, r);
    } else {
        assert(held.take(i) =~= held);
    }
}

/// Where two ledgers differ only in what process `p` holds, the holders
/// below `n` differ by the difference at `p`, if `p` is numbered below `n`.
pub proof fn lemma_holders_below_delta(
    a: Map<Process, Seq<Range<u32>>>,
    b: Map<Process, Seq<Range<u32>>>,
    p: Process,
    r: Range<u32>,
    n: nat,
)
    requires
        n <= 0x1_0000_0000,
        forall|id: u32| id != p.0 ==> held_by(a, id, r) == held_by(b, id, r),
    ensures
        holders_below(b, r, n) + (if p.0 < n {
            held_by(a, p.0, r)
        } else {
            0nat
        }) == holders_below(a, r, n) + if p.0 < n {
            held_by(b, p.0, r)
        } else {
            0nat
        },
    decreases n,
{
    if n > 0 {
        lemma_holders_below_delta(a, b, p, r, (n - 1) as nat);
    }
}

/// Where two ledgers differ only in what process `p` holds, the holders of
/// a range differ by the difference at `p`.
pub proof fn lemma_holders_delta(
    a: Map<Process, Seq<Range<u32>>>,
    b: Map<Process, Seq<Range<u32>>>,
    p: Process,
    r: Range<u32>,
)
    requires
        forall|q: Process| q != p ==> (a.contains_key(q) <==> b.contains_key(q)),
        forall|q: Process| q != p && a.contains_key(q) ==> a[q] == b[q],
    ensures
        holders(b, r) + held_by(a, p.0, r) == holders(a, r) + held_by(b, p.0, r),
{
    assert forall|id: u32| id != p.0 implies held_by(a, id, r) == held_by(b, id, r) by {
        let q = Process(id);
        assert(q != p);
    }
    lemma_holders_below_delta(a, b, p, r, 0x1_0000_0000);
}

/// The holders of a range are at least the entries of any one process.
pub proof fn lemma_holders_at_least(ledger: Map<Process, Seq<Range<u32>>>, p: Process, r: Range<u32>)
    ensures
        holders(ledger, r) >= held_by(ledger, p.0, r),
{
    lemma_holders_below_at_least(ledger, p, r, 0x1_0000_0000);
}

proof fn lemma_holders_below_at_least(
    ledger: Map<Process, Seq<Range<u32>>>,
    p: Process,
    r: Range<u32>,
    n: nat,
)
    ensures
        p.0 < n ==> holders_below(ledger, r, n) >= held_by(ledger, p.0, r),
    decreases n,
{
    if n > 0 {
        lemma_holders_below_at_least(ledger, p, r, (n - 1) as nat);
    }
}

/// A range that no process holds has no holders.
pub proof fn lemma_holders_none(ledger: Map<Process, Seq<Range<u32>>>, r: Range<u32>, n: nat)
    requires
        forall|id: u32| held_by(ledger, id, r) == 0,
    ensures
        holders_below(ledger, r, n) == 0,
    decreases n,
{
    if n > 0 {
        lemma_holders_none(ledger, r, (n - 1) as nat);
    }
}

/// Where two record tables differ only at `start`, the bytes below `n`
/// differ by the difference at `start`, if `start` is below `n`.
pub proof fn lemma_live_bytes_below_delta(
    a: Map<u32, MemRange>,
    b: Map<u32, MemRange>,
    start: u32,
    n: nat,
)
    requires
        n <= 0x1_0000_0000,
        forall|s: u32| s != start ==> bytes_at(a, s) == bytes_at(b, s),
    ensures
        live_bytes_below(b, n) + (if start < n {
            bytes_at(a, start)
        } else {
            0
        }) == live_bytes_below(a, n) + if start < n {
            bytes_at(b, start)
        } else {
            0
        },
    decreases n,
{
    if n > 0 {
        lemma_live_bytes_below_delta(a, b, start, (n - 1) as nat);
    }
}

/// Where two record tables differ only at `start`, their bytes differ by
/// the difference at `start`.
pub proof fn lemma_live_bytes_delta(a: Map<u32, MemRange>, b: Map<u32, MemRange>, start: u32)
    requires
        forall|s: u32| s != start ==> (a.contains_key(s) <==> b.contains_key(s)),
        forall|s: u32| s != start && a.contains_key(s) ==> a[s] == b[s],
    ensures
        live_bytes(b) + bytes_at(a, start) == live_bytes(a) + bytes_at(b, start),
{
    lemma_live_bytes_below_delta(a, b, start, 0x1_0000_0000);
}

/// A table without records has no live bytes.
pub proof fn lemma_live_bytes_none(records: Map<u32, MemRange>, n: nat)
    requires
        forall|s: u32| !records.contains_key(s),
    ensures
        live_bytes_below(records, n) == 0,
    decreases n,
{
    if n > 0 {
        lemma_live_bytes_none(records, (n - 1) as nat);
    }
}

} // verus!
