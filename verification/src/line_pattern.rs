//! Line patterns: laying a hint's runs out in a line of a given length, and
//! the run-length reading that recovers the hint from a pattern.

use vstd::prelude::*;

use crate::cell::{Cell, is_determined};
use crate::comb_counter::{comb_count, comb_sum};
use crate::distribution::{
    nth_comp,
    seq_sum,
    lemma_nth_comp_len,
    lemma_nth_comp_sum,
    lemma_nth_comp_injective,
};

verus! {

/// `n` empty cells.
pub open spec fn blanks(n: nat) -> Seq<Cell> {
    Seq::new(n, |i: int| Cell::Blank)
}

/// `n` filled cells.
pub open spec fn blocks(n: nat) -> Seq<Cell> {
    Seq::new(n, |i: int| Cell::Block)
}

/// The pattern laid out from `gaps` and `hint`: `gaps[0]` blanks, `hint[0]`
/// blocks, one separating blank, `gaps[1]` blanks, `hint[1]` blocks, ... and
/// finally `gaps[hint.len()]` blanks.  `gaps` has one more entry than `hint`.
pub open spec fn line_of(gaps: Seq<nat>, hint: Seq<nat>) -> Seq<Cell>
    decreases hint.len(),
{
    if hint.len() == 0 {
        blanks(gaps[0])
    } else if hint.len() == 1 {
        blanks(gaps[0]) + blocks(hint[0]) + line_of(gaps.skip(1), hint.skip(1))
    } else {
        blanks(gaps[0]) + blocks(hint[0]) + seq![Cell::Blank] + line_of(
            gaps.skip(1),
            hint.skip(1),
        )
    }
}

/// A hint fits a line when its runs and the blanks between them do.
pub open spec fn hint_fits(hint: Seq<nat>, length: nat) -> bool {
    seq_sum(hint) + hint.len() <= length + 1
}

/// A hint the solver accepts: it fits the line and has no zero run.
pub open spec fn valid_hint(hint: Seq<nat>, length: nat) -> bool {
    &&& hint_fits(hint, length)
    &&& forall|j: int| 0 <= j < hint.len() ==> hint[j] >= 1
}

/// The number of free blanks to distribute around the runs.
pub open spec fn free_of(hint: Seq<nat>, length: nat) -> nat {
    (length + 1 - seq_sum(hint) - hint.len()) as nat
}

/// The number of places the free blanks can go.
pub open spec fn bins_of(hint: Seq<nat>) -> nat {
    hint.len() + 1
}

/// How many arrangements the hint has in a line of the given length.
pub open spec fn candidate_count(hint: Seq<nat>, length: nat) -> nat {
    comb_count(free_of(hint, length), bins_of(hint))
}

/// The `i`-th arrangement of the hint in a line of the given length.
/// An empty hint denotes an entirely empty line.
pub open spec fn pattern_of(hint: Seq<nat>, length: nat, i: nat) -> Seq<Cell> {
    if hint.len() == 0 {
        blanks(length)
    } else {
        line_of(nth_comp(free_of(hint, length), bins_of(hint), i), hint)
    }
}

/// The length of a laid-out line: all gaps, all runs, one separator
/// between consecutive runs.
pub proof fn lemma_line_of_len(gaps: Seq<nat>, hint: Seq<nat>)
    requires
        gaps.len() == hint.len() + 1,
    ensures
        line_of(gaps, hint).len() == seq_sum(gaps) + seq_sum(hint) + if hint.len() >= 1 {
            (hint.len() - 1) as nat
        } else {
            0nat
        },
    decreases hint.len(),
{
    if hint.len() == 0 {
        assert(gaps =~= seq![gaps[0]]);
        assert(seq_sum(seq![gaps[0]]) == gaps[0] + seq_sum(seq![gaps[0]].skip(1)));
        assert(seq![gaps[0]].skip(1) =~= Seq::<nat>::empty());
    } else {
        lemma_line_of_len(gaps.skip(1), hint.skip(1));
        assert(seq_sum(gaps) == gaps[0] + seq_sum(gaps.skip(1)));
        assert(seq_sum(hint) == hint[0] + seq_sum(hint.skip(1)));
    }
}

/// Every cell of a laid-out line is determined.
pub proof fn lemma_line_of_determined(gaps: Seq<nat>, hint: Seq<nat>)
    requires
        gaps.len() == hint.len() + 1,
    ensures
        forall|p: int|
            0 <= p < line_of(gaps, hint).len() ==> is_determined(#[trigger] line_of(gaps, hint)[p]),
    decreases hint.len(),
{
    if hint.len() == 0 {
    } else {
        lemma_line_of_determined(gaps.skip(1), hint.skip(1));
        let l = line_of(gaps, hint);
        let tail = line_of(gaps.skip(1), hint.skip(1));
        let pre = gaps[0] + hint[0] + if hint.len() >= 2 {
            1int
        } else {
            0int
        };
        assert forall|p: int| 0 <= p < l.len() implies is_determined(#[trigger] l[p]) by {
            if p < gaps[0] {
                assert(l[p] == Cell::Blank);
            } else if p < gaps[0] + hint[0] {
                assert(l[p] == Cell::Block);
            } else if hint.len() >= 2 && p == gaps[0] + hint[0] {
                assert(l[p] == Cell::Blank);
            } else {
                assert(l[p] == tail[p - pre]);
            }
        }
    }
}

/// The run lengths of a pattern: the lengths of its maximal stretches of
/// filled cells, in order.  Cells other than `Block` end a run.
pub open spec fn run_lengths(s: Seq<Cell>) -> Seq<nat>
    decreases s.len(),
{
    if s.len() == 0 {
        Seq::empty()
    } else if s[0] != Cell::Block {
        run_lengths(s.skip(1))
    } else {
        let rest = run_lengths(s.skip(1));
        if 1 < s.len() && s[1] == Cell::Block {
            seq![(rest[0] + 1) as nat] + rest.skip(1)
        } else {
            seq![1nat] + rest
        }
    }
}

/// Leading blanks do not contribute runs.
pub proof fn lemma_run_lengths_blanks(g: nat, rest: Seq<Cell>)
    ensures
        run_lengths(blanks(g) + rest) == run_lengths(rest),
    decreases g,
{
    if g == 0 {
        assert(blanks(0) + rest =~= rest);
    } else {
        lemma_run_lengths_blanks((g - 1) as nat, rest);
        let s = blanks(g) + rest;
        assert(s[0] == Cell::Blank);
        assert(s.skip(1) =~= blanks((g - 1) as nat) + rest);
    }
}

/// A run of `h` blocks followed by a non-block (or nothing) contributes one
/// run of length `h`.
pub proof fn lemma_run_lengths_blocks(h: nat, rest: Seq<Cell>)
    requires
        h >= 1,
        rest.len() == 0 || rest[0] != Cell::Block,
    ensures
        run_lengths(blocks(h) + rest) == seq![h] + run_lengths(rest),
    decreases h,
{
    let s = blocks(h) + rest;
    assert(s[0] == Cell::Block);
    if h == 1 {
        assert(s.skip(1) =~= rest);
        if 1 < s.len() {
            assert(s[1] == rest[0]);
        }
    } else {
        lemma_run_lengths_blocks((h - 1) as nat, rest);
        assert(s.skip(1) =~= blocks((h - 1) as nat) + rest);
        assert(s[1] == Cell::Block);
        let r1 = run_lengths(s.skip(1));
        assert(r1 == seq![(h - 1) as nat] + run_lengths(rest));
        assert(r1[0] == h - 1);
        assert(r1.skip(1) =~= run_lengths(rest));
        assert(seq![(r1[0] + 1) as nat] + r1.skip(1) =~= seq![h] + run_lengths(rest));
    }
}

/// Reading the runs of a laid-out line gives the hint back, provided every
/// run is nonempty.
pub proof fn lemma_run_lengths_line_of(gaps: Seq<nat>, hint: Seq<nat>)
    requires
        gaps.len() == hint.len() + 1,
        forall|j: int| 0 <= j < hint.len() ==> hint[j] >= 1,
    ensures
        run_lengths(line_of(gaps, hint)) == hint,
    decreases hint.len(),
{
    if hint.len() == 0 {
        assert(line_of(gaps, hint) == blanks(gaps[0]));
        assert(blanks(gaps[0]) + Seq::<Cell>::empty() =~= blanks(gaps[0]));
        lemma_run_lengths_blanks(gaps[0], Seq::<Cell>::empty());
        assert(hint =~= Seq::<nat>::empty());
    } else if hint.len() == 1 {
        let tail = line_of(gaps.skip(1), hint.skip(1));
        assert(tail == blanks(gaps.skip(1)[0]));
        assert(line_of(gaps, hint) =~= blanks(gaps[0]) + (blocks(hint[0]) + tail));
        lemma_run_lengths_blanks(gaps[0], blocks(hint[0]) + tail);
        if tail.len() > 0 {
            assert(tail[0] == Cell::Blank);
        }
        lemma_run_lengths_blocks(hint[0], tail);
        assert(tail + Seq::<Cell>::empty() =~= tail);
        lemma_run_lengths_blanks(gaps.skip(1)[0], Seq::<Cell>::empty());
        assert(run_lengths(tail) =~= Seq::<nat>::empty());
        assert(seq![hint[0]] + Seq::<nat>::empty() =~= hint);
    } else {
        let tail = line_of(gaps.skip(1), hint.skip(1));
        lemma_run_lengths_line_of(gaps.skip(1), hint.skip(1));
        assert(line_of(gaps, hint) =~= blanks(gaps[0]) + (blocks(hint[0]) + (seq![Cell::Blank]
            + tail)));
        lemma_run_lengths_blanks(gaps[0], blocks(hint[0]) + (seq![Cell::Blank] + tail));
        assert((seq![Cell::Blank] + tail)[0] == Cell::Blank);
        lemma_run_lengths_blocks(hint[0], seq![Cell::Blank] + tail);
        assert(seq![Cell::Blank] + tail =~= blanks(1) + tail);
        lemma_run_lengths_blanks(1, tail);
        assert(seq![hint[0]] + run_lengths(tail) =~= hint);
    }
}

/// Every arrangement of a hint has the length of the line, is made of
/// determined cells only, and reads back as the hint.
pub proof fn lemma_pattern_matches_hint(hint: Seq<nat>, length: nat, i: nat)
    requires
        hint_fits(hint, length),
        forall|j: int| 0 <= j < hint.len() ==> hint[j] >= 1,
        i < candidate_count(hint, length),
    ensures
        pattern_of(hint, length, i).len() == length,
        run_lengths(pattern_of(hint, length, i)) == hint,
        forall|p: int|
            0 <= p < length ==> is_determined(#[trigger] pattern_of(hint, length, i)[p]),
{
    if hint.len() == 0 {
        assert(blanks(length) + Seq::<Cell>::empty() =~= blanks(length));
        lemma_run_lengths_blanks(length, Seq::<Cell>::empty());
        assert(hint =~= Seq::<nat>::empty());
    } else {
        let free = free_of(hint, length);
        let bins = bins_of(hint);
        let gaps = nth_comp(free, bins, i);
        lemma_nth_comp_len(free, bins, i);
        lemma_nth_comp_sum(free, bins, i);
        lemma_line_of_len(gaps, hint);
        lemma_line_of_determined(gaps, hint);
        lemma_run_lengths_line_of(gaps, hint);
    }
}

/// The first gap of a laid-out line can be read off the pattern.
proof fn lemma_line_of_first_gap(gaps1: Seq<nat>, gaps2: Seq<nat>, hint: Seq<nat>)
    requires
        hint.len() >= 1,
        hint[0] >= 1,
        gaps1.len() == hint.len() + 1,
        gaps2.len() == hint.len() + 1,
        line_of(gaps1, hint) == line_of(gaps2, hint),
    ensures
        gaps1[0] == gaps2[0],
{
    let l1 = line_of(gaps1, hint);
    let l2 = line_of(gaps2, hint);
    lemma_line_of_len(gaps1, hint);
    lemma_line_of_len(gaps2, hint);
    if gaps1[0] < gaps2[0] {
        assert(l1[gaps1[0] as int] == Cell::Block);
        assert(l2[gaps1[0] as int] == Cell::Blank);
    } else if gaps2[0] < gaps1[0] {
        assert(l1[gaps2[0] as int] == Cell::Blank);
        assert(l2[gaps2[0] as int] == Cell::Block);
    }
}

/// Two gap distributions that lay out to the same pattern are equal.
pub proof fn lemma_line_of_injective(gaps1: Seq<nat>, gaps2: Seq<nat>, hint: Seq<nat>)
    requires
        gaps1.len() == hint.len() + 1,
        gaps2.len() == hint.len() + 1,
        forall|j: int| 0 <= j < hint.len() ==> hint[j] >= 1,
        line_of(gaps1, hint) == line_of(gaps2, hint),
    ensures
        gaps1 == gaps2,
    decreases hint.len(),
{
    if hint.len() == 0 {
        assert(line_of(gaps1, hint).len() == gaps1[0]);
        assert(line_of(gaps2, hint).len() == gaps2[0]);
        assert(gaps1 =~= seq![gaps1[0]]);
        assert(gaps2 =~= seq![gaps2[0]]);
    } else {
        lemma_line_of_first_gap(gaps1, gaps2, hint);
        let l1 = line_of(gaps1, hint);
        let l2 = line_of(gaps2, hint);
        let pre = gaps1[0] + hint[0] + if hint.len() >= 2 {
            1int
        } else {
            0int
        };
        let t1 = line_of(gaps1.skip(1), hint.skip(1));
        let t2 = line_of(gaps2.skip(1), hint.skip(1));
        lemma_line_of_len(gaps1, hint);
        lemma_line_of_len(gaps2, hint);
        assert(t1 =~= l1.skip(pre));
        assert(t2 =~= l2.skip(pre));
        lemma_line_of_injective(gaps1.skip(1), gaps2.skip(1), hint.skip(1));
        assert(gaps1 =~= seq![gaps1[0]] + gaps1.skip(1));
        assert(gaps2 =~= seq![gaps2[0]] + gaps2.skip(1));
    }
}

/// Distinct arrangement indices materialize to distinct patterns, so the
/// number of distinct patterns equals `candidate_count`.
pub proof fn lemma_pattern_injective(hint: Seq<nat>, length: nat, i1: nat, i2: nat)
    requires
        hint_fits(hint, length),
        forall|j: int| 0 <= j < hint.len() ==> hint[j] >= 1,
        i1 < candidate_count(hint, length),
        i2 < candidate_count(hint, length),
        i1 != i2,
    ensures
        pattern_of(hint, length, i1) != pattern_of(hint, length, i2),
{
    let free = free_of(hint, length);
    let bins = bins_of(hint);
    if hint.len() == 0 {
        crate::comb_counter::lemma_comb_count_recurrence(free, 1);
        assert(comb_count(free, 1) == 1);
        assert(false);
    } else {
        lemma_nth_comp_injective(free, bins, i1, i2);
        lemma_nth_comp_len(free, bins, i1);
        lemma_nth_comp_len(free, bins, i2);
        if pattern_of(hint, length, i1) == pattern_of(hint, length, i2) {
            lemma_line_of_injective(nth_comp(free, bins, i1), nth_comp(free, bins, i2), hint);
            assert(false);
        }
    }
}

/// Every pattern the hint can materialize to, over all arrangement indices.
pub open spec fn distinct_patterns(hint: Seq<nat>, length: nat) -> Set<Seq<Cell>> {
    vstd::set_lib::set_int_range(0, candidate_count(hint, length) as int).map(
        |i: int| pattern_of(hint, length, i as nat),
    )
}

/// There are exactly as many distinct patterns as there are arrangement
/// indices.
pub proof fn lemma_distinct_pattern_count(hint: Seq<nat>, length: nat)
    requires
        valid_hint(hint, length),
    ensures
        distinct_patterns(hint, length).len() == candidate_count(hint, length),
{
    let n = candidate_count(hint, length) as int;
    let dom = vstd::set_lib::set_int_range(0, n);
    vstd::set_lib::lemma_int_range(0, n);
    let f = |i: int| pattern_of(hint, length, i as nat);
    assert(vstd::relations::injective_on(f, dom)) by {
        assert forall|i1: int, i2: int|
            #![trigger dom.contains(i1), dom.contains(i2)]
            dom.contains(i1) && dom.contains(i2) && f(i1) == f(i2) implies i1 == i2 by {
            if i1 != i2 {
                lemma_pattern_injective(hint, length, i1 as nat, i2 as nat);
            }
        }
    }
    vstd::set_lib::lemma_map_size(dom, dom.map(f), f);
}

/// A hint has exactly one arrangement when it is empty or exactly fills the
/// line.
pub proof fn lemma_candidate_count_one(hint: Seq<nat>, length: nat)
    requires
        hint_fits(hint, length),
    ensures
        candidate_count(hint, length) == 1 <==> (hint.len() == 0 || seq_sum(hint) + hint.len()
            == length + 1),
{
    lemma_comb_count_eq_one(free_of(hint, length), bins_of(hint));
}

/// A composition count is `1` exactly when nothing is distributed or there
/// is a single bin.
pub proof fn lemma_comb_count_eq_one(a: nat, k: nat)
    requires
        k >= 1,
    ensures
        comb_count(a, k) == 1 <==> (a == 0 || k == 1),
    decreases k,
{
    if a == 0 {
    } else if k == 1 {
    } else if k == 2 {
    } else {
        lemma_comb_count_eq_one(a, (k - 1) as nat);
        crate::comb_counter::lemma_comb_count_recurrence(a, k);
        crate::comb_counter::lemma_comb_count_pos(a, (k - 1) as nat);
        crate::comb_counter::lemma_comb_count_pos(0, (k - 1) as nat);
        assert(comb_sum(a, (k - 1) as nat) >= comb_count(a, (k - 1) as nat) + comb_sum(
            (a - 1) as nat,
            (k - 1) as nat,
        ) >= 2) by {
            crate::comb_counter::lemma_comb_sum_monotone(0, (a - 1) as nat, (k - 1) as nat);
        }
    }
}

} // verus!
