//! Indexing compositions: the `index`-th way to place `amount` units into
//! `count` ordered bins, in the canonical order where earlier bins grow last.

use vstd::prelude::*;

use crate::comb_counter::{CombCounter, comb_count, comb_sum, lemma_comb_count_pos, lemma_comb_count_recurrence, lemma_comb_count_pascal, lemma_comb_term_le_count};

verus! {

/// A sequence of `usize` values read as mathematical naturals.
pub open spec fn nats_of(s: Seq<usize>) -> Seq<nat> {
    s.map_values(|x: usize| x as nat)
}

/// The sum of a sequence of naturals.
pub open spec fn seq_sum(s: Seq<nat>) -> nat
    decreases s.len(),
{
    if s.len() == 0 {
        0
    } else {
        s[0] + seq_sum(s.skip(1))
    }
}

/// Sums distribute over concatenation.
pub proof fn lemma_seq_sum_concat(a: Seq<nat>, b: Seq<nat>)
    ensures
        seq_sum(a + b) == seq_sum(a) + seq_sum(b),
    decreases a.len(),
{
    if a.len() == 0 {
        assert(a + b =~= b);
    } else {
        lemma_seq_sum_concat(a.skip(1), b);
        assert((a + b).skip(1) =~= a.skip(1) + b);
        assert(seq_sum(a + b) == (a + b)[0] + seq_sum((a + b).skip(1)));
    }
}

/// A prefix sums to no more than the whole sequence.
pub proof fn lemma_seq_sum_prefix(s: Seq<nat>, i: int)
    requires
        0 <= i <= s.len(),
    ensures
        seq_sum(s.take(i)) <= seq_sum(s),
{
    assert(s =~= s.take(i) + s.skip(i));
    lemma_seq_sum_concat(s.take(i), s.skip(i));
}

/// The `i`-th composition of `a` into `k` ordered bins.  Compositions are
/// ordered with the first bin ascending; within one value of the first bin
/// the remaining bins are ordered recursively.  Defined for `i` below
/// `comb_count(a, k)`; beyond that the value is immaterial.
pub open spec fn nth_comp(a: nat, k: nat, i: nat) -> Seq<nat>
    decreases k, a,
{
    if k <= 1 {
        seq![a]
    } else if i < comb_count(a, (k - 1) as nat) {
        seq![0nat] + nth_comp(a, (k - 1) as nat, i)
    } else if a == 0 {
        seq![0nat] + nth_comp(0, (k - 1) as nat, 0)
    } else {
        let rest = nth_comp((a - 1) as nat, k, (i - comb_count(a, (k - 1) as nat)) as nat);
        seq![(rest[0] + 1) as nat] + rest.skip(1)
    }
}

/// A composition of `a` into `k` bins has `k` entries.
pub proof fn lemma_nth_comp_len(a: nat, k: nat, i: nat)
    requires
        k >= 1,
    ensures
        nth_comp(a, k, i).len() == k,
    decreases k, a,
{
    if k <= 1 {
    } else if i < comb_count(a, (k - 1) as nat) {
        lemma_nth_comp_len(a, (k - 1) as nat, i);
    } else if a == 0 {
        lemma_nth_comp_len(0, (k - 1) as nat, 0);
    } else {
        lemma_nth_comp_len((a - 1) as nat, k, (i - comb_count(a, (k - 1) as nat)) as nat);
    }
}

/// A composition with a valid index sums to `a`.
pub proof fn lemma_nth_comp_sum(a: nat, k: nat, i: nat)
    requires
        k >= 1,
        i < comb_count(a, k),
    ensures
        seq_sum(nth_comp(a, k, i)) == a,
    decreases k, a,
{
    if k <= 1 {
        let s = seq![a];
        assert(s.skip(1) =~= Seq::<nat>::empty());
        assert(seq_sum(Seq::<nat>::empty()) == 0);
        assert(seq_sum(s) == s[0] + seq_sum(s.skip(1)));
        assert(seq_sum(s) == a);
    } else if i < comb_count(a, (k - 1) as nat) {
        lemma_comb_count_pos(a, (k - 1) as nat);
        lemma_nth_comp_sum(a, (k - 1) as nat, i);
        let rest = nth_comp(a, (k - 1) as nat, i);
        assert((seq![0nat] + rest).skip(1) =~= rest);
        assert(seq_sum(seq![0nat] + rest) == rest.len() == 0 ==> 0nat + seq_sum(rest) == seq_sum(
            seq![0nat] + rest,
        ));
        assert(seq_sum(seq![0nat] + rest) == 0 + seq_sum((seq![0nat] + rest).skip(1)));
    } else if a == 0 {
        lemma_comb_count_pos(0, k);
        assert(comb_count(0, k) == 1);
        assert(false);
    } else {
        lemma_comb_count_pascal(a, k);
        let c = comb_count(a, (k - 1) as nat);
        let i2 = (i - c) as nat;
        lemma_nth_comp_sum((a - 1) as nat, k, i2);
        lemma_nth_comp_len((a - 1) as nat, k, i2);
        let rest = nth_comp((a - 1) as nat, k, i2);
        let built = seq![(rest[0] + 1) as nat] + rest.skip(1);
        assert(seq_sum(rest) == rest[0] + seq_sum(rest.skip(1)));
        assert(built.skip(1) =~= rest.skip(1));
        assert(seq_sum(built) == built[0] + seq_sum(built.skip(1)));
    }
}

/// The composition of zero units is all zeros.
pub proof fn lemma_nth_comp_zero(k: nat)
    requires
        k >= 1,
    ensures
        nth_comp(0, k, 0) =~= Seq::new(k, |x: int| 0nat),
    decreases k,
{
    if k <= 1 {
    } else {
        lemma_comb_count_pos(0, (k - 1) as nat);
        lemma_nth_comp_zero((k - 1) as nat);
        lemma_nth_comp_len(0, (k - 1) as nat, 0);
    }
}

/// Distinct valid indices give distinct compositions.
pub proof fn lemma_nth_comp_injective(a: nat, k: nat, i1: nat, i2: nat)
    requires
        k >= 1,
        i1 < comb_count(a, k),
        i2 < comb_count(a, k),
        i1 != i2,
    ensures
        nth_comp(a, k, i1) != nth_comp(a, k, i2),
    decreases k, a,
{
    if k <= 1 {
        assert(comb_count(a, 1) == 1);
        assert(false);
    } else {
        let c = comb_count(a, (k - 1) as nat);
        lemma_comb_count_pos(a, (k - 1) as nat);
        if i1 < c && i2 < c {
            lemma_nth_comp_injective(a, (k - 1) as nat, i1, i2);
            let r1 = nth_comp(a, (k - 1) as nat, i1);
            let r2 = nth_comp(a, (k - 1) as nat, i2);
            if seq![0nat] + r1 == seq![0nat] + r2 {
                assert((seq![0nat] + r1).skip(1) =~= r1);
                assert((seq![0nat] + r2).skip(1) =~= r2);
                assert(false);
            }
        } else if i1 < c || i2 < c {
            // one starts with bin 0, the other with a positive first bin
            if a == 0 {
                assert(comb_count(0, k) == 1);
                assert(false);
            }
            let (lo, hi) = if i1 < c {
                (i1, i2)
            } else {
                (i2, i1)
            };
            let rlo = nth_comp(a, (k - 1) as nat, lo);
            let rest = nth_comp((a - 1) as nat, k, (hi - c) as nat);
            assert((seq![0nat] + rlo)[0] == 0);
            assert((seq![(rest[0] + 1) as nat] + rest.skip(1))[0] == rest[0] + 1);
            assert(nth_comp(a, k, lo)[0] != nth_comp(a, k, hi)[0]);
        } else {
            if a == 0 {
                assert(comb_count(0, k) == 1);
                assert(false);
            }
            lemma_comb_count_pascal(a, k);
            let j1 = (i1 - c) as nat;
            let j2 = (i2 - c) as nat;
            lemma_nth_comp_injective((a - 1) as nat, k, j1, j2);
            let r1 = nth_comp((a - 1) as nat, k, j1);
            let r2 = nth_comp((a - 1) as nat, k, j2);
            lemma_nth_comp_len((a - 1) as nat, k, j1);
            lemma_nth_comp_len((a - 1) as nat, k, j2);
            let b1 = seq![(r1[0] + 1) as nat] + r1.skip(1);
            let b2 = seq![(r2[0] + 1) as nat] + r2.skip(1);
            if b1 == b2 {
                assert(b1[0] == b2[0]);
                assert(r1[0] == r2[0]);
                assert(b1.skip(1) =~= r1.skip(1));
                assert(b2.skip(1) =~= r2.skip(1));
                assert(r1 =~= seq![r1[0]] + r1.skip(1));
                assert(r2 =~= seq![r2[0]] + r2.skip(1));
                assert(r1 =~= r2);
                assert(false);
            }
        }
    }
}

/// `comb_psum(a, k, m)` is `sum of comb_count(a - x, k) for x in 0..m`:
/// the number of compositions whose first bin is below `m`.
pub open spec fn comb_psum(a: nat, k: nat, m: nat) -> nat
    decreases m,
{
    if m == 0 {
        0
    } else {
        comb_psum(a, k, (m - 1) as nat) + comb_count((a - (m - 1)) as nat, k)
    }
}

/// Partial sums grow with the number of terms.
pub proof fn lemma_psum_monotone(a: nat, k: nat, m1: nat, m2: nat)
    requires
        m1 <= m2,
    ensures
        comb_psum(a, k, m1) <= comb_psum(a, k, m2),
    decreases m2,
{
    if m1 < m2 {
        lemma_psum_monotone(a, k, m1, (m2 - 1) as nat);
    }
}

/// Peeling the first term off a partial sum.
pub proof fn lemma_psum_shift(a: nat, k: nat, m: nat)
    requires
        1 <= m,
        m <= a + 1,
        a >= 1,
    ensures
        comb_psum(a, k, m) == comb_count(a, k) + comb_psum((a - 1) as nat, k, (m - 1) as nat),
    decreases m,
{
    if m == 1 {
        assert(comb_psum(a, k, 1) == comb_psum(a, k, 0) + comb_count(a, k));
        assert(comb_psum(a, k, 0) == 0);
        assert(comb_psum((a - 1) as nat, k, 0) == 0);
    } else {
        lemma_psum_shift(a, k, (m - 1) as nat);
        assert(comb_psum(a, k, m) == comb_psum(a, k, (m - 1) as nat) + comb_count(
            (a - (m - 1)) as nat,
            k,
        ));
        assert(comb_psum((a - 1) as nat, k, (m - 1) as nat) == comb_psum(
            (a - 1) as nat,
            k,
            (m - 2) as nat,
        ) + comb_count(((a - 1) - (m - 2)) as nat, k));
        assert((a - (m - 1)) as nat == ((a - 1) - (m - 2)) as nat);
    }
}

/// The full partial sum is the whole count.
pub proof fn lemma_psum_total(a: nat, k: nat)
    ensures
        comb_psum(a, k, (a + 1) as nat) == comb_sum(a, k),
    decreases a,
{
    if a == 0 {
        assert(comb_psum(0, k, 1) == comb_psum(0, k, 0) + comb_count(0, k));
        assert(comb_psum(0, k, 0) == 0);
        assert(comb_sum(0, k) == comb_count(0, k));
    } else {
        lemma_psum_shift(a, k, (a + 1) as nat);
        lemma_psum_total((a - 1) as nat, k);
    }
}

/// The greedy selection: if `i` falls inside the block of compositions whose
/// first bin equals `j`, then the `i`-th composition starts with `j` and
/// continues with a composition of what is left.
pub proof fn lemma_nth_comp_select(a: nat, k: nat, i: nat, j: nat)
    requires
        k >= 2,
        j <= a,
        comb_psum(a, (k - 1) as nat, j) <= i,
        i < comb_psum(a, (k - 1) as nat, (j + 1) as nat),
    ensures
        i - comb_psum(a, (k - 1) as nat, j) < comb_count((a - j) as nat, (k - 1) as nat),
        nth_comp(a, k, i) == seq![j] + nth_comp(
            (a - j) as nat,
            (k - 1) as nat,
            (i - comb_psum(a, (k - 1) as nat, j)) as nat,
        ),
    decreases j,
{
    let km = (k - 1) as nat;
    assert(comb_psum(a, km, (j + 1) as nat) == comb_psum(a, km, j) + comb_count(
        (a - j) as nat,
        km,
    ));
    assert(comb_psum(a, km, 1) == comb_psum(a, km, 0) + comb_count(a, km));
    assert(comb_psum(a, km, 0) == 0);
    if j == 0 {
        assert(nth_comp(a, k, i) == seq![0nat] + nth_comp(a, km, i));
    } else {
        lemma_psum_monotone(a, km, 1, j);
        assert(i >= comb_count(a, km));
        let c = comb_count(a, km);
        let i2 = (i - c) as nat;
        lemma_psum_shift(a, km, j);
        lemma_psum_shift(a, km, (j + 1) as nat);
        lemma_nth_comp_select((a - 1) as nat, k, i2, (j - 1) as nat);
        let rest = nth_comp((a - 1) as nat, k, i2);
        let sub = nth_comp(
            ((a - 1) - (j - 1)) as nat,
            km,
            (i2 - comb_psum((a - 1) as nat, km, (j - 1) as nat)) as nat,
        );
        assert(rest == seq![(j - 1) as nat] + sub);
        assert(rest[0] == j - 1);
        assert(rest.skip(1) =~= sub);
        assert(((a - 1) - (j - 1)) as nat == (a - j) as nat);
        assert((i2 - comb_psum((a - 1) as nat, km, (j - 1) as nat)) as nat == (i - comb_psum(
            a,
            km,
            j,
        )) as nat);
        assert(nth_comp(a, k, i) == seq![(rest[0] + 1) as nat] + rest.skip(1));
        assert(seq![(rest[0] + 1) as nat] =~= seq![j]);
    }
}

/// Two bins: the `i`-th composition is `[i, a - i]`.
pub proof fn lemma_nth_comp_two(a: nat, i: nat)
    requires
        i <= a,
    ensures
        nth_comp(a, 2, i) == seq![i, (a - i) as nat],
    decreases i,
{
    if i == 0 {
        assert(comb_count(a, 1) == 1);
        assert(nth_comp(a, 1, 0) == seq![a]);
        assert(seq![0nat] + seq![a] =~= seq![0nat, a]);
    } else {
        lemma_nth_comp_two((a - 1) as nat, (i - 1) as nat);
        assert(comb_count(a, 1) == 1);
        let rest = nth_comp((a - 1) as nat, 2, (i - 1) as nat);
        assert(rest == seq![(i - 1) as nat, (a - i) as nat]);
        assert(rest.skip(1) =~= seq![(a - i) as nat]);
        assert(seq![i] + seq![(a - i) as nat] =~= seq![i, (a - i) as nat]);
    }
}

/// Compute the `index`-th composition of `amount` into `count` bins, exactly
/// as `nth_comp` describes it, or report that the index is out of range.
pub(crate) fn distribute_number_core(
    counter: &mut CombCounter,
    amount: usize,
    count: usize,
    index: usize,
) -> (r: Result<Vec<usize>, &'static str>)
    requires
        old(counter).wf(),
        count >= 2,
        comb_count(amount as nat, count as nat) <= usize::MAX,
    ensures
        final(counter).wf(),
        r is Ok <==> index < comb_count(amount as nat, count as nat),
        r matches Ok(v) ==> nats_of(v@) == nth_comp(amount as nat, count as nat, index as nat)
            && v@.len() == count,
{
    let total = counter.calc_comb_count(amount, count);
    if total <= index {
        return Err("Index out of range");
    }
    let mut result: Vec<usize> = Vec::new();
    let mut filled: usize = 0;
    while filled < count
        invariant
            filled <= count,
            result@.len() == filled,
            forall|p: int| 0 <= p < filled ==> result@[p] == 0,
        decreases count - filled,
    {
        result.push(0);
        filled = filled + 1;
    }

    let mut left: usize = amount;
    let mut counted: usize = 0;
    let mut i: usize = 0;

    proof {
        assert(result@.subrange(0, 0) =~= Seq::<usize>::empty());
        assert(nats_of(Seq::<usize>::empty()) =~= Seq::<nat>::empty());
        assert(Seq::<nat>::empty() + nth_comp(amount as nat, count as nat, index as nat)
            =~= nth_comp(amount as nat, count as nat, index as nat));
    }

    while i < count - 2
        invariant
            counter.wf(),
            count >= 2,
            i <= count - 2,
            left <= amount,
            counted <= index,
            index < comb_count(amount as nat, count as nat),
            comb_count(amount as nat, count as nat) <= usize::MAX,
            result@.len() == count,
            forall|p: int| i <= p < count ==> result@[p] == 0,
            index - counted < comb_count(left as nat, (count - i) as nat),
            counted + comb_count(left as nat, (count - i) as nat) <= comb_count(
                amount as nat,
                count as nat,
            ),
            nth_comp(amount as nat, count as nat, index as nat) == nats_of(
                result@.subrange(0, i as int),
            ) + nth_comp(left as nat, (count - i) as nat, (index - counted) as nat),
        decreases count - i,
    {
        let k_rem = count - i;  // bins still open, >= 3
        let km = k_rem - 1;
        let ghost base = counted as nat;
        proof {
            lemma_psum_total(left as nat, km as nat);
            lemma_comb_count_recurrence(left as nat, k_rem as nat);
            assert(comb_psum(left as nat, km as nat, (left + 1) as nat) == comb_count(
                left as nat,
                k_rem as nat,
            ));
        }
        let mut j: usize = 0;
        proof {
            lemma_comb_term_le_count(left as nat, left as nat, k_rem as nat);
        }
        proof {
            assert(comb_psum(left as nat, km as nat, 0) == 0);
        }
        let mut step = counter.calc_comb_count(left, km);
        while step <= index - counted
            invariant
                counter.wf(),
                k_rem == count - i,
                km == k_rem - 1,
                3 <= k_rem <= count,
                j <= left,
                left <= amount,
                counted == base + comb_psum(left as nat, km as nat, j as nat),
                counted <= index,
                index < comb_count(amount as nat, count as nat),
                comb_count(amount as nat, count as nat) <= usize::MAX,
                index - base < comb_count(left as nat, k_rem as nat),
                base + comb_count(left as nat, k_rem as nat) <= comb_count(
                    amount as nat,
                    count as nat,
                ),
                comb_psum(left as nat, km as nat, (left + 1) as nat) == comb_count(
                    left as nat,
                    k_rem as nat,
                ),
                step == comb_count((left - j) as nat, km as nat),
            decreases left - j,
        {
            proof {
                // the loop cannot pass the last bin value
                assert(comb_psum(left as nat, km as nat, (j + 1) as nat) == comb_psum(
                    left as nat,
                    km as nat,
                    j as nat,
                ) + comb_count((left - j) as nat, km as nat));
                if j == left {
                    assert(counted + step == base + comb_count(left as nat, k_rem as nat));
                    assert(false);
                }
                lemma_psum_monotone(left as nat, km as nat, (j + 2) as nat, (left + 1) as nat);
            }
            counted = counted + step;
            j = j + 1;
            proof {
                lemma_comb_term_le_count((left - j) as nat, left as nat, k_rem as nat);
            }
            step = counter.calc_comb_count(left - j, km);
        }
        // bin i holds j
        proof {
            assert(comb_psum(left as nat, km as nat, (j + 1) as nat) == comb_psum(
                left as nat,
                km as nat,
                j as nat,
            ) + comb_count((left - j) as nat, km as nat));
            lemma_nth_comp_select(left as nat, k_rem as nat, (index - base) as nat, j as nat);
        }
        let ghost prefix = result@.subrange(0, i as int);
        result.set(i, j);
        proof {
            assert(result@.subrange(0, (i + 1) as int) =~= prefix + seq![j]);
            assert(nats_of(prefix + seq![j]) =~= nats_of(prefix) + seq![j as nat]);
            let tail = nth_comp(
                (left - j) as nat,
                km as nat,
                ((index - base) - comb_psum(left as nat, km as nat, j as nat)) as nat,
            );
            assert(nth_comp(left as nat, k_rem as nat, (index - base) as nat) == seq![j as nat]
                + tail);
            assert((nats_of(prefix) + seq![j as nat]) + tail =~= nats_of(prefix) + (seq![j as nat]
                + tail));
            // the remaining index for the open bins
            assert((index - counted) as nat == ((index - base) - comb_psum(
                left as nat,
                km as nat,
                j as nat,
            )) as nat);
            // new budget invariant
            lemma_psum_monotone(left as nat, km as nat, (j + 1) as nat, (left + 1) as nat);
            assert(base + comb_psum(left as nat, km as nat, (j + 1) as nat) <= base + comb_count(
                left as nat,
                k_rem as nat,
            ));
        }
        left = left - j;
        i = i + 1;
    }

    // two bins remain
    let rem = index - counted;
    proof {
        assert(comb_count(left as nat, 2) == left + 1);
        lemma_nth_comp_two(left as nat, rem as nat);
    }
    let ghost prefix = result@.subrange(0, i as int);
    result.set(i, rem);
    result.set(i + 1, left - rem);
    proof {
        assert(result@.subrange(0, i as int) =~= prefix);
        assert(result@ =~= prefix + seq![rem, (left - rem) as usize]);
        assert(nats_of(prefix + seq![rem, (left - rem) as usize]) =~= nats_of(prefix) + seq![
            rem as nat,
            (left - rem) as nat,
        ]);
        assert(nth_comp(left as nat, 2, rem as nat) == seq![rem as nat, (left - rem) as nat]);
        assert(nats_of(result@) =~= nth_comp(amount as nat, count as nat, index as nat));
    }
    Ok(result)
}

} // verus!
