//! The executable composition and line-pattern calculators.

use vstd::prelude::*;

use crate::cell::Cell;
use crate::comb_counter::{CombCounter, comb_count};
use crate::distribution::{distribute_number_core, nats_of, nth_comp, seq_sum};
use crate::distribution::{lemma_seq_sum_concat, lemma_seq_sum_prefix};
use crate::line_pattern::{
    blanks,
    bins_of,
    candidate_count,
    free_of,
    hint_fits,
    line_of,
    pattern_of,
};

verus! {

/// Append `n` copies of `c` to `result`.
fn push_repeat(result: &mut Vec<Cell>, c: Cell, n: usize)
    ensures
        final(result)@ == old(result)@ + Seq::new(n as nat, |i: int| c),
{
    let mut i: usize = 0;
    while i < n
        invariant
            i <= n,
            result@ =~= old(result)@ + Seq::new(i as nat, |j: int| c),
        decreases n - i,
    {
        result.push(c);
        i = i + 1;
        proof {
            assert(result@ =~= old(result)@ + Seq::new(i as nat, |j: int| c));
        }
    }
    proof {
        assert(result@ =~= old(result)@ + Seq::new(n as nat, |j: int| c));
    }
}

/// Sum the entries of a hint.
fn hint_sum(hint: &Vec<usize>) -> (r: usize)
    requires
        seq_sum(nats_of(hint@)) <= usize::MAX,
    ensures
        r == seq_sum(nats_of(hint@)),
{
    let ghost all = nats_of(hint@);
    let mut sum: usize = 0;
    let mut i: usize = 0;
    while i < hint.len()
        invariant
            i <= hint.len(),
            all == nats_of(hint@),
            all.len() == hint@.len(),
            seq_sum(all) <= usize::MAX,
            sum == seq_sum(all.take(i as int)),
        decreases hint.len() - i,
    {
        proof {
            assert(all.take(i + 1) =~= all.take(i as int) + seq![all[i as int]]);
            lemma_seq_sum_concat(all.take(i as int), seq![all[i as int]]);
            assert(seq_sum(seq![all[i as int]]) == all[i as int] + seq_sum(
                seq![all[i as int]].skip(1),
            ));
            assert(seq![all[i as int]].skip(1) =~= Seq::<nat>::empty());
            lemma_seq_sum_prefix(all, i + 1);
        }
        sum = sum + hint[i];
        i = i + 1;
    }
    proof {
        assert(all.take(hint@.len() as int) =~= all);
    }
    sum
}

/// Lay `blocks` out with the given surrounding `gaps`, exactly as `line_of`
/// describes: `gaps[i]` blanks before run `i`, one separating blank between
/// consecutive runs, `gaps[last]` blanks at the end.
fn create_line(gaps: &Vec<usize>, hint: &Vec<usize>, result: &mut Vec<Cell>)
    requires
        gaps@.len() == hint@.len() + 1,
    ensures
        final(result)@ == line_of(nats_of(gaps@), nats_of(hint@)),
{
    result.clear();
    let ghost gall = nats_of(gaps@);
    let ghost hall = nats_of(hint@);
    proof {
        assert(gall.skip(0) =~= gall);
        assert(hall.skip(0) =~= hall);
        assert(result@ + line_of(gall, hall) =~= line_of(gall, hall));
    }
    let mut i: usize = 0;
    while i < hint.len()
        invariant
            i <= hint.len(),
            gaps@.len() == hint@.len() + 1,
            gall == nats_of(gaps@),
            hall == nats_of(hint@),
            line_of(gall, hall) == result@ + line_of(
                gall.skip(i as int),
                hall.skip(i as int),
            ),
        decreases hint.len() - i,
    {
        let ghost before = result@;
        push_repeat(result, Cell::Blank, gaps[i]);
        push_repeat(result, Cell::Block, hint[i]);
        if i < hint.len() - 1 {
            result.push(Cell::Blank);
        }
        i = i + 1;
        proof {
            let gsk = gall.skip(i - 1);
            let hsk = hall.skip(i - 1);
            assert(gsk[0] == gall[i - 1]);
            assert(hsk[0] == hall[i - 1]);
            assert(gsk.skip(1) =~= gall.skip(i as int));
            assert(hsk.skip(1) =~= hall.skip(i as int));
            if hsk.len() == 1 {
                assert(line_of(gsk, hsk) == blanks(gsk[0]) + crate::line_pattern::blocks(hsk[0])
                    + line_of(gall.skip(i as int), hall.skip(i as int)));
                assert(result@ =~= before + blanks(gsk[0]) + crate::line_pattern::blocks(hsk[0]));
                assert(result@ + line_of(gall.skip(i as int), hall.skip(i as int)) =~= before
                    + line_of(gsk, hsk));
            } else {
                assert(line_of(gsk, hsk) == blanks(gsk[0]) + crate::line_pattern::blocks(hsk[0])
                    + seq![Cell::Blank] + line_of(gall.skip(i as int), hall.skip(i as int)));
                assert(result@ =~= before + blanks(gsk[0]) + crate::line_pattern::blocks(hsk[0])
                    + seq![Cell::Blank]);
                assert(result@ + line_of(gall.skip(i as int), hall.skip(i as int)) =~= before
                    + line_of(gsk, hsk));
            }
        }
    }
    let last = gaps.len() - 1;
    let ghost before = result@;
    push_repeat(result, Cell::Blank, gaps[last]);
    proof {
        let gsk = gall.skip(last as int);
        let hsk = hall.skip(last as int);
        assert(hsk.len() == 0);
        assert(gsk[0] == gall[last as int]);
        assert(line_of(gsk, hsk) == blanks(gsk[0]));
        assert(result@ =~= before + blanks(gsk[0]));
    }
}

/// Enumerates compositions and materializes line patterns, sharing one
/// memoized counter.
pub struct NumberDistributionCalculator {
    comb_counter: CombCounter,
}

impl NumberDistributionCalculator {
    pub closed spec fn wf(&self) -> bool {
        self.comb_counter.wf()
    }

    pub fn new() -> (r: NumberDistributionCalculator)
        ensures
            r.wf(),
    {
        NumberDistributionCalculator { comb_counter: CombCounter::new() }
    }

    /// The `index`-th composition of `amount` into `count` ordered bins, or
    /// an error when `index` is out of range.
    pub fn calc_distribute_number(&mut self, amount: usize, count: usize, index: usize) -> (r:
        Result<Vec<usize>, &'static str>)
        requires
            old(self).wf(),
            count >= 2,
            comb_count(amount as nat, count as nat) <= usize::MAX,
        ensures
            final(self).wf(),
            r is Ok <==> index < comb_count(amount as nat, count as nat),
            r matches Ok(v) ==> nats_of(v@) == nth_comp(amount as nat, count as nat, index as nat)
                && v@.len() == count,
    {
        distribute_number_core(&mut self.comb_counter, amount, count, index)
    }

    /// How many arrangements `hint_numbers` has in a line of `length` cells.
    pub fn calc_distribute_count_line_hint(&mut self, hint_numbers: &Vec<usize>, length: usize)
        -> (r: usize)
        requires
            old(self).wf(),
            hint_numbers@.len() < usize::MAX,
            hint_fits(nats_of(hint_numbers@), length as nat),
            candidate_count(nats_of(hint_numbers@), length as nat) <= usize::MAX,
        ensures
            final(self).wf(),
            r == candidate_count(nats_of(hint_numbers@), length as nat),
    {
        let ghost hall = nats_of(hint_numbers@);
        if hint_numbers.len() == 0 {
            proof {
                assert(seq_sum(hall) == 0);
                assert(candidate_count(hall, length as nat) == comb_count((length + 1) as nat, 1));
            }
            return 1;
        }
        proof {
            assert(seq_sum(hall) <= length + 1 - hall.len());
        }
        let sum = hint_sum(hint_numbers);
        let free = length - sum - (hint_numbers.len() - 1);
        proof {
            assert(free == free_of(hall, length as nat));
        }
        self.comb_counter.calc_comb_count(free, hint_numbers.len() + 1)
    }

    /// As `calc_distribute_count_line_hint`, but reports a count that does
    /// not fit in `usize` instead of requiring that it does.
    pub fn try_calc_distribute_count_line_hint(&mut self, hint_numbers: &Vec<usize>, length: usize)
        -> (r: Option<usize>)
        requires
            old(self).wf(),
            hint_numbers@.len() < usize::MAX,
            hint_fits(nats_of(hint_numbers@), length as nat),
        ensures
            final(self).wf(),
            r matches Some(v) ==> v == candidate_count(nats_of(hint_numbers@), length as nat),
            r is None ==> candidate_count(nats_of(hint_numbers@), length as nat) > usize::MAX,
    {
        let ghost hall = nats_of(hint_numbers@);
        if hint_numbers.len() == 0 {
            proof {
                assert(seq_sum(hall) == 0);
                assert(candidate_count(hall, length as nat) == comb_count((length + 1) as nat, 1));
            }
            return Some(1);
        }
        proof {
            assert(seq_sum(hall) <= length + 1 - hall.len());
        }
        let sum = hint_sum(hint_numbers);
        let free = length - sum - (hint_numbers.len() - 1);
        proof {
            assert(free == free_of(hall, length as nat));
        }
        self.comb_counter.try_calc_comb_count(free, hint_numbers.len() + 1)
    }

    /// Write the `index`-th arrangement of `hint_numbers` in a line of
    /// `length` cells into `result`.  An empty hint materializes as an
    /// entirely blank line whatever the index; otherwise an out-of-range
    /// index is an error and `result` is left cleared.
    pub fn calc_distribute_number_line_hint(
        &mut self,
        hint_numbers: &Vec<usize>,
        length: usize,
        index: usize,
        result: &mut Vec<Cell>,
    ) -> (r: Result<(), &'static str>)
        requires
            old(self).wf(),
            hint_numbers@.len() < usize::MAX,
            hint_fits(nats_of(hint_numbers@), length as nat),
            candidate_count(nats_of(hint_numbers@), length as nat) <= usize::MAX,
        ensures
            final(self).wf(),
            r is Ok <==> (hint_numbers@.len() == 0 || index < candidate_count(
                nats_of(hint_numbers@),
                length as nat,
            )),
            r is Ok ==> final(result)@ == pattern_of(
                nats_of(hint_numbers@),
                length as nat,
                index as nat,
            ),
            r is Err ==> final(result)@.len() == 0,
    {
        result.clear();
        let ghost hall = nats_of(hint_numbers@);
        if hint_numbers.len() == 0 {
            push_repeat(result, Cell::Blank, length);
            proof {
                assert(result@ =~= blanks(length as nat));
            }
            return Ok(());
        }
        proof {
            assert(seq_sum(hall) <= length + 1 - hall.len());
        }
        let sum = hint_sum(hint_numbers);
        let free = length - sum - (hint_numbers.len() - 1);
        let bins = hint_numbers.len() + 1;
        proof {
            assert(free == free_of(hall, length as nat));
            assert(bins == bins_of(hall));
        }
        let gaps = match distribute_number_core(&mut self.comb_counter, free, bins, index) {
            Ok(g) => g,
            Err(e) => {
                return Err(e);
            },
        };
        create_line(&gaps, hint_numbers, result);
        Ok(())
    }
}

/// The composition calculator under its older name, with the line pattern
/// returned by value.
pub struct DistributeNumberCalculator {
    comb_counter: CombCounter,
}

impl DistributeNumberCalculator {
    pub closed spec fn wf(&self) -> bool {
        self.comb_counter.wf()
    }

    pub fn new() -> (r: DistributeNumberCalculator)
        ensures
            r.wf(),
    {
        DistributeNumberCalculator { comb_counter: CombCounter::new() }
    }

    /// The `index`-th composition of `amount` into `count` ordered bins.
    pub fn calc_distribute_number(&mut self, amount: usize, count: usize, index: usize) -> (r:
        Result<Vec<usize>, &'static str>)
        requires
            old(self).wf(),
            count >= 2,
            comb_count(amount as nat, count as nat) <= usize::MAX,
        ensures
            final(self).wf(),
            r is Ok <==> index < comb_count(amount as nat, count as nat),
            r matches Ok(v) ==> nats_of(v@) == nth_comp(amount as nat, count as nat, index as nat)
                && v@.len() == count,
    {
        distribute_number_core(&mut self.comb_counter, amount, count, index)
    }

    /// How many arrangements `hint_numbers` has in a line of `length` cells.
    pub fn calc_distribute_count_line_hint(&mut self, hint_numbers: &Vec<usize>, length: usize)
        -> (r: usize)
        requires
            old(self).wf(),
            hint_numbers@.len() < usize::MAX,
            hint_fits(nats_of(hint_numbers@), length as nat),
            candidate_count(nats_of(hint_numbers@), length as nat) <= usize::MAX,
        ensures
            final(self).wf(),
            r == candidate_count(nats_of(hint_numbers@), length as nat),
    {
        let ghost hall = nats_of(hint_numbers@);
        if hint_numbers.len() == 0 {
            proof {
                assert(seq_sum(hall) == 0);
                assert(candidate_count(hall, length as nat) == comb_count((length + 1) as nat, 1));
            }
            return 1;
        }
        proof {
            assert(seq_sum(hall) <= length + 1 - hall.len());
        }
        let sum = hint_sum(hint_numbers);
        let free = length - sum - (hint_numbers.len() - 1);
        proof {
            assert(free == free_of(hall, length as nat));
        }
        self.comb_counter.calc_comb_count(free, hint_numbers.len() + 1)
    }

    /// The `index`-th arrangement of `hint_numbers` in a line of `length`
    /// cells, returned by value.  An empty hint materializes as an entirely
    /// blank line whatever the index.
    pub fn calc_distribute_number_line_hint(
        &mut self,
        hint_numbers: &Vec<usize>,
        length: usize,
        index: usize,
    ) -> (r: Result<Vec<Cell>, &'static str>)
        requires
            old(self).wf(),
            hint_numbers@.len() < usize::MAX,
            hint_fits(nats_of(hint_numbers@), length as nat),
            candidate_count(nats_of(hint_numbers@), length as nat) <= usize::MAX,
        ensures
            final(self).wf(),
            r is Ok <==> (hint_numbers@.len() == 0 || index < candidate_count(
                nats_of(hint_numbers@),
                length as nat,
            )),
            r matches Ok(v) ==> v@ == pattern_of(nats_of(hint_numbers@), length as nat, index as nat),
    {
        let ghost hall = nats_of(hint_numbers@);
        if hint_numbers.len() == 0 {
            let mut blank_line: Vec<Cell> = Vec::new();
            push_repeat(&mut blank_line, Cell::Blank, length);
            proof {
                assert(blank_line@ =~= blanks(length as nat));
            }
            return Ok(blank_line);
        }
        proof {
            assert(seq_sum(hall) <= length + 1 - hall.len());
        }
        let sum = hint_sum(hint_numbers);
        let free = length - sum - (hint_numbers.len() - 1);
        let bins = hint_numbers.len() + 1;
        proof {
            assert(free == free_of(hall, length as nat));
            assert(bins == bins_of(hall));
        }
        let gaps = match distribute_number_core(&mut self.comb_counter, free, bins, index) {
            Ok(g) => g,
            Err(e) => {
                return Err(e);
            },
        };
        let mut result: Vec<Cell> = Vec::new();
        create_line(&gaps, hint_numbers, &mut result);
        Ok(result)
    }
}

} // verus!
