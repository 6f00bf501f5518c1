use vstd::prelude::*;

verus! {

pub open spec fn id_space() -> nat {
    0x1_0000_0000
}

/// The id handed out by the allocation `n` steps after one that handed out
/// `start`.
pub open spec fn nth_id(start: u32, n: nat) -> u32 {
    ((start as nat + n) % id_space()) as u32
}

/// The source of subscription ids: one counter, starting at 1, that every
/// new subscription draws from.
pub struct SubscriptionIds {
    pub next: u32,
}

impl SubscriptionIds {
    pub fn new() -> (r: SubscriptionIds)
        ensures
            r.next == 1,
    {
        SubscriptionIds { next: 1 }
    }

    /// Hands out the current id and moves the counter on by one.
    pub fn allocate(&mut self) -> (r: u32)
        ensures
            r == old(self).next,
            final(self).next == nth_id(old(self).next, 1),
    {
        let r = self.next;
        self.next = self.next.wrapping_add(1);
        r
    }
}

/// Counting on from the id `n` steps on is counting `n + m` steps in all.
pub proof fn lemma_nth_id_step(start: u32, n: nat, m: nat)
    ensures
        nth_id(nth_id(start, n), m) == nth_id(start, n + m),
{
    let s = start as nat;
    let k = (s + n) % id_space();
    assert(((k + m) % id_space()) == ((s + n + m) % id_space())) by {
        vstd::arithmetic::div_mod::lemma_add_mod_noop((s + n) as int, m as int, id_space() as int);
        vstd::arithmetic::div_mod::lemma_mod_twice(m as int, id_space() as int);
    }
}

/// Allocation is injective: `n` allocations in a row, however the callers
/// take turns, return `n` distinct ids, which are exactly `start`,
/// `start + 1`, ..., `start + n - 1` (counted modulo 2^32).
pub proof fn lemma_allocation_injective(start: u32, n: nat)
    requires
        n <= id_space(),
    ensures
        forall|i: nat, j: nat| i < n && j < n && i != j ==> nth_id(start, i) != nth_id(start, j),
        forall|i: nat| i < n ==> #[trigger] nth_id(start, i) as nat == (start as nat + i) % id_space(),
{
    assert forall|i: nat, j: nat| i < n && j < n && i != j implies nth_id(start, i) != nth_id(start, j) by {
        let s = start as int;
        let m = id_space() as int;
        if nth_id(start, i) == nth_id(start, j) {
            assert((s + i) % m == (s + j) % m);
            if i < j {
                vstd::arithmetic::div_mod::lemma_mod_equivalence(s + j, s + i, m);
                assert(((s + j) - (s + i)) % m == 0);
                vstd::arithmetic::div_mod::lemma_small_mod((j - i) as nat, m as nat);
            } else {
                vstd::arithmetic::div_mod::lemma_mod_equivalence(s + i, s + j, m);
                assert(((s + i) - (s + j)) % m == 0);
                vstd::arithmetic::div_mod::lemma_small_mod((i - j) as nat, m as nat);
            }
        }
    }
}

} // verus!
