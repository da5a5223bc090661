//! Counting compositions: the number of ways to place `amount`
//! indistinguishable units into `count` ordered bins.

use vstd::prelude::*;

verus! {

/// `comb_count(a, k)` is the number of compositions of `a` into exactly `k`
/// ordered non-negative parts.  It follows the recurrence
/// `C(a, 1) = 1`, `C(a, 2) = a + 1`, `C(a, k) = sum of C(x, k - 1) for x in 0..=a`,
/// with `C(0, k) = 1`; `k == 0` is out of the domain and counts nothing.
pub open spec fn comb_count(a: nat, k: nat) -> nat
    decreases k, a, 1int,
{
    if k == 0 {
        0
    } else if a == 0 {
        1
    } else if k == 1 {
        1
    } else if k == 2 {
        a + 1
    } else {
        comb_sum(a, (k - 1) as nat)
    }
}

/// `comb_sum(a, k)` is `sum of comb_count(x, k) for x in 0..=a`.
pub open spec fn comb_sum(a: nat, k: nat) -> nat
    decreases k, a, 2int,
{
    comb_count(a, k) + if a == 0 {
        0
    } else {
        comb_sum((a - 1) as nat, k)
    }
}

/// Every composition count over at least one bin is positive.
pub proof fn lemma_comb_count_pos(a: nat, k: nat)
    requires
        k >= 1,
    ensures
        comb_count(a, k) >= 1,
    decreases k, a,
{
    if k >= 3 && a > 0 {
        lemma_comb_count_pos(a, (k - 1) as nat);
        assert(comb_sum(a, (k - 1) as nat) >= comb_count(a, (k - 1) as nat));
    }
}

/// The counter recurrence: for every `k >= 2`,
/// `comb_count(a, k)` equals the sum of `comb_count(x, k - 1)` over `x in 0..=a`.
pub proof fn lemma_comb_count_recurrence(a: nat, k: nat)
    requires
        k >= 2,
    ensures
        comb_count(a, k) == comb_sum(a, (k - 1) as nat),
    decreases a,
{
    if a == 0 {
        assert(comb_count(0, k) == 1);
        assert(comb_sum(0, (k - 1) as nat) == comb_count(0, (k - 1) as nat));
        assert(comb_count(0, (k - 1) as nat) == 1);
    } else if k == 2 {
        lemma_comb_count_recurrence((a - 1) as nat, k);
        assert(comb_sum(a, 1) == comb_count(a, 1) + comb_sum((a - 1) as nat, 1));
        assert(comb_count(a, 1) == 1);
    } else {
        assert(comb_count(a, k) == comb_sum(a, (k - 1) as nat));
    }
}

/// Pascal-style step: adding one unit or one bin.
pub proof fn lemma_comb_count_pascal(a: nat, k: nat)
    requires
        k >= 2,
        a >= 1,
    ensures
        comb_count(a, k) == comb_count(a, (k - 1) as nat) + comb_count((a - 1) as nat, k),
{
    lemma_comb_count_recurrence(a, k);
    lemma_comb_count_recurrence((a - 1) as nat, k);
    assert(comb_sum(a, (k - 1) as nat) == comb_count(a, (k - 1) as nat) + comb_sum(
        (a - 1) as nat,
        (k - 1) as nat,
    ));
}

/// `comb_sum` grows with its first argument.
pub proof fn lemma_comb_sum_monotone(a1: nat, a2: nat, k: nat)
    requires
        a1 <= a2,
    ensures
        comb_sum(a1, k) <= comb_sum(a2, k),
    decreases a2,
{
    if a1 < a2 {
        lemma_comb_sum_monotone(a1, (a2 - 1) as nat, k);
        assert(comb_sum(a2, k) == comb_count(a2, k) + comb_sum((a2 - 1) as nat, k));
    }
}

/// `comb_count` grows with both arguments (once there is at least one bin).
pub proof fn lemma_comb_count_monotone(a1: nat, k1: nat, a2: nat, k2: nat)
    requires
        1 <= k1 <= k2,
        a1 <= a2,
    ensures
        comb_count(a1, k1) <= comb_count(a2, k2),
    decreases k2,
{
    lemma_comb_count_pos(a2, k2);
    if a1 == 0 {
        assert(comb_count(0, k1) == 1);
    } else if k1 == k2 {
        if k1 == 1 {
            assert(comb_count(a1, 1) == 1 && comb_count(a2, 1) == 1);
        } else {
            lemma_comb_count_recurrence(a1, k1);
            lemma_comb_count_recurrence(a2, k2);
            lemma_comb_sum_monotone(a1, a2, (k1 - 1) as nat);
        }
    } else {
        lemma_comb_count_monotone(a1, k1, a2, (k2 - 1) as nat);
        lemma_comb_count_recurrence(a2, k2);
        lemma_comb_sum_monotone(0, a2, (k2 - 1) as nat);
        assert(comb_sum(a2, (k2 - 1) as nat) >= comb_count(a2, (k2 - 1) as nat));
    }
}

/// A single term of the sum is bounded by the whole count.
pub proof fn lemma_comb_term_le_count(x: nat, a: nat, k: nat)
    requires
        k >= 2,
        x <= a,
    ensures
        comb_count(x, (k - 1) as nat) <= comb_count(a, k),
    decreases a,
{
    lemma_comb_count_recurrence(a, k);
    if x == a {
        assert(comb_sum(a, (k - 1) as nat) >= comb_count(a, (k - 1) as nat));
    } else {
        lemma_comb_term_le_count(x, (a - 1) as nat, k);
        lemma_comb_count_recurrence((a - 1) as nat, k);
        assert(comb_sum(a, (k - 1) as nat) == comb_count(a, (k - 1) as nat) + comb_sum(
            (a - 1) as nat,
            (k - 1) as nat,
        ));
    }
}

pub const MEMO_DIM: usize = 100;

/// A memoized composition counter with one slot per `(amount, count)` pair
/// below `MEMO_DIM`; larger arguments are recomputed on each call.
pub struct CombCounter {
    cache: Vec<Option<usize>>,
}

impl CombCounter {
    /// Every filled slot holds the true count.
    pub closed spec fn wf(&self) -> bool {
        &&& self.cache@.len() == MEMO_DIM * MEMO_DIM
        &&& forall|a: int, k: int|
            0 <= a < MEMO_DIM && 0 <= k < MEMO_DIM && #[trigger] self.cache@[a * MEMO_DIM + k]
                is Some ==> self.cache@[a * MEMO_DIM + k]->Some_0 == comb_count(a as nat, k as nat)
    }

    pub fn new() -> (r: CombCounter)
        ensures
            r.wf(),
    {
        let total = MEMO_DIM * MEMO_DIM;
        let mut cache: Vec<Option<usize>> = Vec::new();
        let mut i: usize = 0;
        while i < total
            invariant
                i <= total,
                cache@.len() == i,
                forall|j: int| 0 <= j < i ==> #[trigger] cache@[j] is None,
            decreases total - i,
        {
            cache.push(None);
            i = i + 1;
        }
        let r = CombCounter { cache };
        proof {
            assert forall|a: int, k: int|
                0 <= a < MEMO_DIM && 0 <= k < MEMO_DIM implies !(#[trigger] r.cache@[a * MEMO_DIM
                + k] is Some) by {
                crate::board::lemma_row_major_index_bounds(MEMO_DIM as int, MEMO_DIM as int, a, k);
            }
        }
        r
    }

    /// Record a computed count in the memo table.
    fn memo_store(&mut self, amount: usize, count: usize, value: usize)
        requires
            old(self).wf(),
            value == comb_count(amount as nat, count as nat),
        ensures
            final(self).wf(),
    {
        if amount < MEMO_DIM && count < MEMO_DIM {
            let idx = amount * MEMO_DIM + count;
            proof {
                crate::board::lemma_row_major_index_bounds(
                    MEMO_DIM as int,
                    MEMO_DIM as int,
                    amount as int,
                    count as int,
                );
            }
            self.cache.set(idx, Some(value));
            proof {
                assert forall|a: int, k: int|
                    0 <= a < MEMO_DIM && 0 <= k < MEMO_DIM && #[trigger] self.cache@[a * MEMO_DIM
                        + k] is Some implies self.cache@[a * MEMO_DIM + k]->Some_0 == comb_count(
                    a as nat,
                    k as nat,
                ) by {
                    if a * MEMO_DIM + k == idx {
                        crate::board::lemma_row_major_index_injective(
                            MEMO_DIM as int,
                            a,
                            k,
                            amount as int,
                            count as int,
                        );
                    } else {
                        assert(self.cache@[a * MEMO_DIM + k] == old(self).cache@[a * MEMO_DIM + k]);
                    }
                }
            }
        }
    }

    /// Look the pair up in the memo table.
    fn memo_load(&self, amount: usize, count: usize) -> (r: Option<usize>)
        requires
            self.wf(),
        ensures
            r is Some ==> r->Some_0 == comb_count(amount as nat, count as nat),
    {
        if amount < MEMO_DIM && count < MEMO_DIM {
            let idx = amount * MEMO_DIM + count;
            proof {
                crate::board::lemma_row_major_index_bounds(
                    MEMO_DIM as int,
                    MEMO_DIM as int,
                    amount as int,
                    count as int,
                );
            }
            self.cache[idx]
        } else {
            None
        }
    }

    /// The memoized count.  The result must fit in `usize`; use
    /// `try_calc_comb_count` when that is not known in advance.
    pub fn calc_comb_count(&mut self, amount: usize, count: usize) -> (r: usize)
        requires
            old(self).wf(),
            count >= 1,
            comb_count(amount as nat, count as nat) <= usize::MAX,
        ensures
            final(self).wf(),
            r == comb_count(amount as nat, count as nat),
        decreases count,
    {
        if let Some(v) = self.memo_load(amount, count) {
            return v;
        }
        let result: usize;
        if amount == 0 {
            result = 1;
        } else if count == 1 {
            result = 1;
        } else if count == 2 {
            result = amount + 1;
        } else {
            proof {
                lemma_comb_count_recurrence(amount as nat, count as nat);
            }
            let mut sum: usize = 0;
            let mut x: usize = 0;
            while x <= amount
                invariant
                    self.wf(),
                    count >= 3,
                    amount >= 1,
                    x <= amount + 1,
                    comb_count(amount as nat, count as nat) == comb_sum(
                        amount as nat,
                        (count - 1) as nat,
                    ),
                    comb_count(amount as nat, count as nat) <= usize::MAX,
                    x == 0 ==> sum == 0,
                    x >= 1 ==> sum == comb_sum((x - 1) as nat, (count - 1) as nat),
                decreases amount + 1 - x,
            {
                proof {
                    lemma_comb_term_le_count(x as nat, amount as nat, count as nat);
                    lemma_comb_sum_monotone(x as nat, amount as nat, (count - 1) as nat);
                    if x == 0 {
                        assert(comb_sum(0, (count - 1) as nat) == comb_count(
                            0,
                            (count - 1) as nat,
                        ));
                    } else {
                        assert(comb_sum(x as nat, (count - 1) as nat) == comb_count(
                            x as nat,
                            (count - 1) as nat,
                        ) + comb_sum((x - 1) as nat, (count - 1) as nat));
                    }
                }
                let term = self.calc_comb_count(x, count - 1);
                proof {
                    lemma_comb_count_monotone(x as nat, 2, x as nat, (count - 1) as nat);
                    assert(comb_count(x as nat, 2) == x + 1);
                }
                sum = sum + term;
                x = x + 1;
            }
            result = sum;
        }
        self.memo_store(amount, count, result);
        result
    }

    /// The memoized count, or `None` when the count exceeds `usize::MAX`.
    pub fn try_calc_comb_count(&mut self, amount: usize, count: usize) -> (r: Option<usize>)
        requires
            old(self).wf(),
            count >= 1,
        ensures
            final(self).wf(),
            r is Some ==> r->Some_0 == comb_count(amount as nat, count as nat),
            r is None ==> comb_count(amount as nat, count as nat) > usize::MAX,
        decreases count,
    {
        if let Some(v) = self.memo_load(amount, count) {
            return Some(v);
        }
        if amount == 0 {
            return Some(1);
        }
        if count == 1 {
            return Some(1);
        }
        if count == 2 {
            if amount == usize::MAX {
                return None;
            }
            self.memo_store(amount, count, amount + 1);
            return Some(amount + 1);
        }
        proof {
            lemma_comb_count_recurrence(amount as nat, count as nat);
        }
        let mut sum: usize = 0;
        let mut x: usize = 0;
        while x <= amount
            invariant
                self.wf(),
                count >= 3,
                amount >= 1,
                x <= amount + 1,
                comb_count(amount as nat, count as nat) == comb_sum(
                    amount as nat,
                    (count - 1) as nat,
                ),
                x == 0 ==> sum == 0,
                x >= 1 ==> sum == comb_sum((x - 1) as nat, (count - 1) as nat),
            decreases amount + 1 - x,
        {
            proof {
                lemma_comb_sum_monotone(x as nat, amount as nat, (count - 1) as nat);
                if x == 0 {
                    assert(comb_sum(0, (count - 1) as nat) == comb_count(0, (count - 1) as nat));
                } else {
                    assert(comb_sum(x as nat, (count - 1) as nat) == comb_count(
                        x as nat,
                        (count - 1) as nat,
                    ) + comb_sum((x - 1) as nat, (count - 1) as nat));
                }
            }
            let term = match self.try_calc_comb_count(x, count - 1) {
                Some(t) => t,
                None => {
                    proof {
                        lemma_comb_term_le_count(x as nat, amount as nat, count as nat);
                    }
                    return None;
                },
            };
            proof {
                lemma_comb_count_monotone(x as nat, 2, x as nat, (count - 1) as nat);
                assert(comb_count(x as nat, 2) == x + 1);
            }
            sum = match sum.checked_add(term) {
                Some(s) => s,
                None => {
                    return None;
                },
            };
            x = x + 1;
        }
        self.memo_store(amount, count, sum);
        Some(sum)
    }
}

} // verus!
