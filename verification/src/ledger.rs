//! The offset ledger: the single serialization point of commit order.

use crate::invariants::assert_monotonic_offset;
use vstd::prelude::*;

verus! {

/// Hands out offsets `0, 1, 2, ...`, one per call, in call order.
#[derive(Debug)]
pub struct Ledger {
    next_offset: u64,
}

/// One assignment on a counter that stands at `next`: the offset handed out,
/// and where the counter stands afterwards.
pub open spec fn assign_step(next: nat) -> (nat, nat) {
    (next, next + 1)
}

/// The offsets handed out by `calls` successive assignments, in call order,
/// on a counter that stands at `next`.
pub open spec fn assigned(next: nat, calls: nat) -> Seq<nat>
    decreases calls,
{
    if calls == 0 {
        Seq::empty()
    } else {
        seq![assign_step(next).0] + assigned(assign_step(next).1, (calls - 1) as nat)
    }
}

impl Ledger {
    /// The offset that the next assignment hands out.
    pub closed spec fn next(&self) -> nat {
        self.next_offset as nat
    }

    /// Whether every offset has been handed out.
    pub open spec fn exhausted(&self) -> bool {
        self.next() >= u64::MAX
    }

    /// A ledger that has handed out nothing: its first offset is 0.
    pub fn new() -> (ledger: Ledger)
        ensures
            ledger.next() == 0,
    {
        Ledger { next_offset: 0 }
    }

    /// The offset that the next assignment hands out.
    pub fn next_offset(&self) -> (next: u64)
        ensures
            next == self.next(),
    {
        self.next_offset
    }

    /// Whether every offset has been handed out, so that no assignment may follow.
    pub fn is_exhausted(&self) -> (b: bool)
        ensures
            b == self.exhausted(),
    {
        self.next_offset == u64::MAX
    }

    /// Assigns the next offset: returns the counter, then advances it by one.
    ///
    /// Nothing is persisted here; that is the storage's part.
    pub fn assign_offset(&mut self) -> (offset: u64)
        requires
            !old(self).exhausted(),
        ensures
            (offset as nat, final(self).next()) == assign_step(old(self).next()),
    {
        let current: u64 = self.next_offset;
        let next: u64 = current + 1;
        assert_monotonic_offset(current, next);
        self.next_offset = next;
        current
    }
}

/// The `i`-th assignment hands out the counter's value plus `i`.
pub proof fn lemma_assigned_in_call_order(next: nat, calls: nat)
    ensures
        assigned(next, calls).len() == calls,
        forall|i: int| 0 <= i < calls ==> #[trigger] assigned(next, calls)[i] == next + i,
    decreases calls,
{
    if calls > 0 {
        lemma_assigned_in_call_order(next + 1, (calls - 1) as nat);
        let rest = assigned(next + 1, (calls - 1) as nat);
        assert forall|i: int| 0 <= i < calls implies #[trigger] assigned(next, calls)[i] == next
            + i by {
            if i > 0 {
                assert(assigned(next, calls)[i] == rest[i - 1]);
            }
        }
    }
}

/// Monotonicity: a later assignment hands out a strictly greater offset, so
/// no offset is handed out twice.
pub proof fn lemma_assigned_strictly_increasing(next: nat, calls: nat, i: int, j: int)
    requires
        0 <= i < j < calls,
    ensures
        assigned(next, calls)[i] < assigned(next, calls)[j],
{
    lemma_assigned_in_call_order(next, calls);
}

/// However `callers * each` assignments on a fresh ledger are interleaved,
/// together they hand out exactly the offsets `0 .. callers * each`, each once.
pub proof fn lemma_fresh_ledger_covers_range(callers: nat, each: nat)
    ensures
        assigned(0, callers * each).len() == callers * each,
        assigned(0, callers * each).no_duplicates(),
        forall|offset: nat|
            #[trigger] assigned(0, callers * each).contains(offset) <==> offset < callers * each,
{
    let total = callers * each;
    let s = assigned(0, total);
    lemma_assigned_in_call_order(0, total);
    assert forall|offset: nat| #[trigger] s.contains(offset) <==> offset < total by {
        if offset < total {
            assert(s[offset as int] == offset);
        }
    }
}

} // verus!
