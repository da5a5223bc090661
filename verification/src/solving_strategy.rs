//! Per-line solving: the viable arrangement set of every line, pruning it
//! against the current cells, and merging what survives into forced cells.

use vstd::prelude::*;
use vstd::set_lib::set_int_range;

use crate::bitset::{bitset_insert, bitset_len, bitset_to_vec, bitset_view, bitset_with_capacity};
use crate::calculator::NumberDistributionCalculator;
use crate::cell::{Cell, is_determined, spec_merge};
use crate::distribution::nats_of;
use crate::line_pattern::{candidate_count, pattern_of, valid_hint};
use crate::shuffle::shuffle_indices;
use crate::solver_display::SolverDisplay;

verus! {

/// A pattern is compatible with the current cells when merging them crashes
/// nowhere.
pub open spec fn compatible(p: Seq<Cell>, cur: Seq<Cell>) -> bool {
    forall|j: int| 0 <= j < cur.len() ==> spec_merge(p[j], #[trigger] cur[j]) != Cell::Crash
}

/// The arrangements of `cands` that are compatible with the current cells.
pub open spec fn survivors(cands: Set<int>, hint: Seq<nat>, length: nat, cur: Seq<Cell>) -> Set<
    int,
> {
    cands.filter(|i: int| compatible(pattern_of(hint, length, i as nat), cur))
}

/// Every arrangement in `s` places `c` at position `p`.
pub open spec fn all_place(s: Set<int>, hint: Seq<nat>, length: nat, p: int, c: Cell) -> bool {
    forall|i: int| s.contains(i) ==> pattern_of(hint, length, i as nat)[p] == c
}

/// What a merged line says, position by position, about a nonempty
/// arrangement set `s`: a determined cell is one every arrangement agrees
/// on; `Unknown` marks disagreement; `Crash` never appears.
pub open spec fn merged_ok(merged: Seq<Cell>, s: Set<int>, hint: Seq<nat>, length: nat) -> bool {
    &&& merged.len() == length
    &&& forall|p: int|
        0 <= p < length ==> ((#[trigger] merged[p] == Cell::Block <==> all_place(
            s,
            hint,
            length,
            p,
            Cell::Block,
        )) && (merged[p] == Cell::Blank <==> all_place(s, hint, length, p, Cell::Blank)) && (
        merged[p] == Cell::Block || merged[p] == Cell::Blank || merged[p] == Cell::Unknown))
}

/// Copy a hint so the calculator can be borrowed alongside it.
fn copy_hint(v: &Vec<usize>) -> (r: Vec<usize>)
    ensures
        r@ == v@,
{
    let mut r: Vec<usize> = Vec::new();
    let mut i: usize = 0;
    while i < v.len()
        invariant
            i <= v@.len(),
            r@ =~= v@.take(i as int),
        decreases v@.len() - i,
    {
        r.push(v[i]);
        i = i + 1;
        proof {
            assert(r@ =~= v@.take(i as int));
        }
    }
    proof {
        assert(r@ =~= v@);
    }
    r
}

/// One line-solving state per line of one axis: the fixed hints, the viable
/// arrangement sets, and the shared enumeration calculator.
pub struct SolvingStrategy {
    length: usize,
    given_hint: Vec<Vec<usize>>,
    possibilities: Vec<bit_set::BitSet>,
    calculator: NumberDistributionCalculator,
}

impl SolvingStrategy {
    /// The number of lines this strategy covers.
    pub closed spec fn num_lines(&self) -> int {
        self.given_hint@.len() as int
    }

    /// The length of each line.
    pub closed spec fn spec_length(&self) -> nat {
        self.length as nat
    }

    /// The hint of line `l`.
    pub closed spec fn hint_at(&self, l: int) -> Seq<nat> {
        nats_of(self.given_hint@[l]@)
    }

    /// The viable arrangement set of line `l`.
    pub closed spec fn cands(&self, l: int) -> Set<int> {
        bitset_view(&self.possibilities@[l])
    }

    /// The number of arrangements of line `l`'s hint.
    pub closed spec fn count_at(&self, l: int) -> nat {
        candidate_count(self.hint_at(l), self.spec_length())
    }

    pub closed spec fn wf(&self) -> bool {
        &&& self.calculator.wf()
        &&& self.possibilities@.len() == self.given_hint@.len()
        &&& forall|l: int|
            0 <= l < self.num_lines() ==> valid_hint(#[trigger] self.hint_at(l), self.spec_length())
        &&& forall|l: int| 0 <= l < self.num_lines() ==> (#[trigger] self.cands(l)).finite()
        &&& forall|l: int| 0 <= l < self.num_lines() ==> (#[trigger] self.cands(l)).len() >= 1
        &&& forall|l: int, i: int|
            0 <= l < self.num_lines() && #[trigger] self.cands(l).contains(i) ==> 0 <= i
                < self.count_at(l)
        &&& forall|l: int| 0 <= l < self.num_lines() ==> #[trigger] self.count_at(l) <= usize::MAX
    }

    /// What well-formedness guarantees about every line: the hints are
    /// valid, and the viable sets are finite, nonempty and in range.
    pub proof fn lemma_wf_facts(&self)
        requires
            self.wf(),
        ensures
            forall|l: int|
                0 <= l < self.num_lines() ==> valid_hint(
                    #[trigger] self.hint_at(l),
                    self.spec_length(),
                ),
            forall|l: int| 0 <= l < self.num_lines() ==> (#[trigger] self.cands(l)).finite(),
            forall|l: int| 0 <= l < self.num_lines() ==> (#[trigger] self.cands(l)).len() >= 1,
            forall|l: int, i: int|
                0 <= l < self.num_lines() && #[trigger] self.cands(l).contains(i) ==> 0 <= i
                    < candidate_count(self.hint_at(l), self.spec_length()),
            forall|l: int|
                0 <= l < self.num_lines() ==> candidate_count(
                    #[trigger] self.hint_at(l),
                    self.spec_length(),
                ) <= usize::MAX,
    {
        assert forall|l: int| 0 <= l < self.num_lines() implies candidate_count(
            #[trigger] self.hint_at(l),
            self.spec_length(),
        ) <= usize::MAX by {
            assert(self.count_at(l) <= usize::MAX);
        }
        assert forall|l: int, i: int|
            0 <= l < self.num_lines() && #[trigger] self.cands(l).contains(i) implies 0 <= i
            < candidate_count(self.hint_at(l), self.spec_length()) by {
            assert(self.count_at(l) == candidate_count(self.hint_at(l), self.spec_length()));
        }
    }

    /// Build the strategy for one axis: every line starts with every
    /// arrangement of its hint viable.
    pub fn new(size: usize, hints: Vec<Vec<usize>>) -> (r: SolvingStrategy)
        requires
            forall|l: int|
                0 <= l < hints@.len() ==> valid_hint(nats_of(#[trigger] hints@[l]@), size as nat),
            forall|l: int|
                0 <= l < hints@.len() ==> candidate_count(
                    nats_of(#[trigger] hints@[l]@),
                    size as nat,
                ) <= usize::MAX,
        ensures
            r.wf(),
            r.spec_length() == size,
            r.num_lines() == hints@.len(),
            forall|l: int| 0 <= l < hints@.len() ==> r.hint_at(l) == nats_of(#[trigger] hints@[l]@),
            forall|l: int|
                0 <= l < hints@.len() ==> #[trigger] r.cands(l) == set_int_range(
                    0,
                    candidate_count(nats_of(hints@[l]@), size as nat) as int,
                ),
    {
        let mut calculator = NumberDistributionCalculator::new();
        let mut possibilities: Vec<bit_set::BitSet> = Vec::new();
        let mut l: usize = 0;
        while l < hints.len()
            invariant
                l <= hints@.len(),
                calculator.wf(),
                possibilities@.len() == l,
                forall|m: int|
                    0 <= m < hints@.len() ==> valid_hint(
                        nats_of(#[trigger] hints@[m]@),
                        size as nat,
                    ),
                forall|m: int|
                    0 <= m < hints@.len() ==> candidate_count(
                        nats_of(#[trigger] hints@[m]@),
                        size as nat,
                    ) <= usize::MAX,
                forall|m: int|
                    0 <= m < l ==> bitset_view(&possibilities@[m]) == set_int_range(
                        0,
                        candidate_count(nats_of(#[trigger] hints@[m]@), size as nat) as int,
                    ),
            decreases hints@.len() - l,
        {
            let hint = &hints[l];
            proof {
                lemma_valid_hint_short(nats_of(hint@), size as nat);
            }
            let count = calculator.calc_distribute_count_line_hint(hint, size);
            let mut possibility = bitset_with_capacity(count);
            let mut j: usize = 0;
            while j < count
                invariant
                    j <= count,
                    bitset_view(&possibility) == set_int_range(0, j as int),
                decreases count - j,
            {
                bitset_insert(&mut possibility, j);
                j = j + 1;
                proof {
                    assert(bitset_view(&possibility) =~= set_int_range(0, j as int));
                }
            }
            possibilities.push(possibility);
            l = l + 1;
        }
        let r = SolvingStrategy { length: size, given_hint: hints, possibilities, calculator };
        proof {
            assert forall|m: int| 0 <= m < r.num_lines() implies (#[trigger] r.cands(m)).finite()
                && r.cands(m).len() >= 1 && r.cands(m) == set_int_range(0, r.count_at(m) as int)
                && (forall|i: int| r.cands(m).contains(i) ==> 0 <= i < r.count_at(m)) by {
                vstd::set_lib::lemma_int_range(0, r.count_at(m) as int);
                crate::comb_counter::lemma_comb_count_pos(
                    crate::line_pattern::free_of(r.hint_at(m), r.spec_length()),
                    crate::line_pattern::bins_of(r.hint_at(m)),
                );
            }
        }
        r
    }

    /// A copy of the hint of line `line_index`, for diagnostics.
    pub fn get_hint(&self, line_index: usize) -> (r: Vec<usize>)
        requires
            line_index < self.num_lines(),
        ensures
            nats_of(r@) == self.hint_at(line_index as int),
    {
        copy_hint(&self.given_hint[line_index])
    }

    /// The number of arrangements still viable for line `line_index`.
    pub fn get_line_possibility_count(&self, line_index: usize) -> (r: usize)
        requires
            self.wf(),
            line_index < self.num_lines(),
        ensures
            r == self.cands(line_index as int).len(),
    {
        proof {
            assert(self.cands(line_index as int).finite());
        }
        bitset_len(&self.possibilities[line_index])
    }

    /// Solve one line: prune every arrangement that contradicts the current
    /// cells and merge the survivors into the forced pattern.  When nothing
    /// survives the puzzle is unsatisfiable and nothing is pruned.
    pub fn solve_line<D: SolverDisplay>(
        &mut self,
        line_index: usize,
        line_cells: &Vec<Cell>,
        display: &mut D,
    ) -> (r: Result<Vec<Cell>, &'static str>)
        requires
            old(self).wf(),
            line_index < old(self).num_lines(),
            line_cells@.len() == old(self).spec_length(),
        ensures
            final(self).wf(),
            final(self).spec_length() == old(self).spec_length(),
            final(self).num_lines() == old(self).num_lines(),
            forall|l: int|
                0 <= l < old(self).num_lines() ==> #[trigger] final(self).hint_at(l) == old(
                    self,
                ).hint_at(l),
            r is Ok ==> forall|i: int|
                final(self).cands(line_index as int).contains(i) ==> 0 <= i < candidate_count(
                    old(self).hint_at(line_index as int),
                    old(self).spec_length(),
                ),
            forall|l: int|
                0 <= l < old(self).num_lines() && l != line_index ==> #[trigger] final(self).cands(
                    l,
                ) == old(self).cands(l),
            r is Err ==> survivors(
                old(self).cands(line_index as int),
                old(self).hint_at(line_index as int),
                old(self).spec_length(),
                line_cells@,
            ) == Set::<int>::empty() && final(self).cands(line_index as int) == old(self).cands(
                line_index as int,
            ),
            r is Ok ==> final(self).cands(line_index as int) == survivors(
                old(self).cands(line_index as int),
                old(self).hint_at(line_index as int),
                old(self).spec_length(),
                line_cells@,
            ) && final(self).cands(line_index as int).len() >= 1,
            r matches Ok(m) ==> merged_ok(
                m@,
                final(self).cands(line_index as int),
                old(self).hint_at(line_index as int),
                old(self).spec_length(),
            ),
    {
        let length = self.length;
        let ghost hint_spec = self.hint_at(line_index as int);
        let ghost cur = line_cells@;
        let ghost old_cands = self.cands(line_index as int);

        let hint = copy_hint(&self.given_hint[line_index]);
        proof {
            assert(nats_of(hint@) == hint_spec);
        }

        let mut order = bitset_to_vec(&self.possibilities[line_index]);
        proof {
            assert(order@.no_duplicates()) by {
                assert forall|i: int, j: int|
                    0 <= i < order@.len() && 0 <= j < order@.len() && i != j implies order@[i]
                    != order@[j] by {}
            }
        }
        let ghost sorted_order = order@;
        shuffle_indices(&mut order);
        proof {
            broadcast use vstd::seq_lib::group_to_multiset_ensures;

            sorted_order.lemma_multiset_has_no_duplicates();
            order@.lemma_multiset_has_no_duplicates_conv();
            assert forall|v: int| old_cands.contains(v) implies exists|t: int|
                0 <= t < order@.len() && #[trigger] order@[t] == v by {
                let t0 = choose|t: int|
                    0 <= t < sorted_order.len() && #[trigger] sorted_order[t] == v;
                assert(sorted_order.contains(sorted_order[t0]));
                assert(order@.to_multiset().count(sorted_order[t0]) > 0);
                assert(order@.contains(sorted_order[t0]));
                let t1 = choose|t: int|
                    0 <= t < order@.len() && #[trigger] order@[t] == sorted_order[t0];
                assert(order@[t1] == v);
            }
            assert forall|t: int| 0 <= t < order@.len() implies old_cands.contains(
                #[trigger] order@[t] as int,
            ) by {
                assert(order@.contains(order@[t]));
                assert(order@.to_multiset().count(order@[t]) > 0);
                assert(sorted_order.contains(order@[t]));
            }
        }

        let total = order.len();
        let mut merged: Vec<Cell> = Vec::new();
        let mut p0: usize = 0;
        while p0 < length
            invariant
                p0 <= length,
                merged@.len() == p0,
                forall|p: int| 0 <= p < p0 ==> merged@[p] == Cell::Unknown,
            decreases length - p0,
        {
            merged.push(Cell::Unknown);
            p0 = p0 + 1;
        }

        let mut kept: Vec<usize> = Vec::new();
        let ghost mut processed: Set<int> = Set::empty();
        let mut indexed_line: Vec<Cell> = Vec::new();
        let mut t: usize = 0;

        proof {
            assert(kept@.map_values(|x: usize| x as int).to_set() =~= processed);
        }

        while t < total
            invariant
                self.wf(),
                self.length == old(self).length,
                self.given_hint == old(self).given_hint,
                self.possibilities == old(self).possibilities,
                line_index < self.num_lines(),
                hint_spec == self.hint_at(line_index as int),
                nats_of(hint@) == hint_spec,
                length == self.length,
                cur == line_cells@,
                cur.len() == length,
                old_cands == self.cands(line_index as int),
                total == order@.len(),
                t <= total,
                forall|u: int| 0 <= u < total ==> old_cands.contains(#[trigger] order@[u] as int),
                forall|v: int|
                    old_cands.contains(v) ==> exists|u: int|
                        0 <= u < order@.len() && #[trigger] order@[u] == v,
                order@.no_duplicates(),
                // what has been decided so far
                processed.finite(),
                forall|i: int| #[trigger]
                    processed.contains(i) ==> old_cands.contains(i) && compatible(
                        pattern_of(hint_spec, length as nat, i as nat),
                        cur,
                    ),
                forall|u: int|
                    0 <= u < t ==> (#[trigger] processed.contains(order@[u] as int) <==> compatible(
                        pattern_of(hint_spec, length as nat, order@[u] as nat),
                        cur,
                    )),
                forall|i: int| #[trigger]
                    processed.contains(i) ==> exists|u: int| 0 <= u < t && order@[u] == i,
                // kept mirrors processed
                kept@.map_values(|x: usize| x as int).to_set() == processed,
                kept@.len() == processed.len(),
                kept@.no_duplicates(),
                forall|u: int|
                    0 <= u < kept@.len() ==> old_cands.contains(#[trigger] kept@[u] as int),
                // merged reflects processed, position by position
                merged@.len() == length,
                forall|p: int|
                    0 <= p < length && processed.len() == 0 ==> #[trigger] merged@[p]
                        == Cell::Unknown,
                forall|p: int|
                    0 <= p < length && processed.len() > 0 ==> ((#[trigger] merged@[p]
                        == Cell::Block <==> all_place(
                        processed,
                        hint_spec,
                        length as nat,
                        p,
                        Cell::Block,
                    )) && (merged@[p] == Cell::Blank <==> all_place(
                        processed,
                        hint_spec,
                        length as nat,
                        p,
                        Cell::Blank,
                    )) && merged@[p] != Cell::Unknown),
            decreases total - t,
        {
            let idx = order[t];
            display.update_progress((t + 1, total));
            let ghost prev_self = *self;
            proof {
                assert(old_cands.contains(idx as int));
                assert(0 <= idx < self.count_at(line_index as int));
                lemma_valid_hint_short(hint_spec, length as nat);
            }
            match self.calculator.calc_distribute_number_line_hint(
                &hint,
                length,
                idx,
                &mut indexed_line,
            ) {
                Ok(()) => (),
                Err(_) => {
                    proof {
                        assert(false);
                    }
                },
            }
            proof {
                lemma_wf_frame(prev_self, *self);
                assert(indexed_line@ == pattern_of(hint_spec, length as nat, idx as nat));
                crate::line_pattern::lemma_pattern_matches_hint(
                    hint_spec,
                    length as nat,
                    idx as nat,
                );
            }

            // is this arrangement compatible with the line as it stands?
            let mut clash = false;
            let mut p: usize = 0;
            while p < length
                invariant
                    p <= length,
                    indexed_line@.len() == length,
                    cur == line_cells@,
                    cur.len() == length,
                    clash == exists|q: int|
                        0 <= q < p && spec_merge(indexed_line@[q], #[trigger] cur[q])
                            == Cell::Crash,
                decreases length - p,
            {
                let c = indexed_line[p].merge(line_cells[p]);
                if c == Cell::Crash {
                    clash = true;
                }
                p = p + 1;
            }

            if clash {
                proof {
                    assert(!compatible(pattern_of(hint_spec, length as nat, idx as nat), cur));
                }
            } else {
                proof {
                    assert(compatible(pattern_of(hint_spec, length as nat, idx as nat), cur));
                }
                let ghost before = merged@;
                let ghost processed_before = processed;
                let mut p: usize = 0;
                while p < length
                    invariant
                        p <= length,
                        merged@.len() == length,
                        indexed_line@.len() == length,
                        indexed_line@ == pattern_of(hint_spec, length as nat, idx as nat),
                        forall|q: int| p <= q < length ==> merged@[q] == before[q],
                        forall|q: int|
                            0 <= q < p ==> #[trigger] merged@[q] == spec_merge(
                                before[q],
                                indexed_line@[q],
                            ),
                    decreases length - p,
                {
                    let m = merged[p].merge(indexed_line[p]);
                    merged.set(p, m);
                    p = p + 1;
                }
                proof {
                    // the index has not been seen: the order has no duplicates
                    assert(!processed_before.contains(idx as int)) by {
                        if processed_before.contains(idx as int) {
                            let u = choose|u: int|
                                0 <= u < t && #[trigger] order@[u] == idx as int;
                            assert(order@[u] == order@[t as int]);
                            assert(false);
                        }
                    }
                }
                let ghost kept_before = kept@;
                kept.push(idx);
                proof {
                    processed = processed.insert(idx as int);
                    kept_before.map_values(|x: usize| x as int).lemma_push_to_set_commute(
                        idx as int,
                    );
                    assert(kept@.map_values(|x: usize| x as int).to_set() =~= processed) by {
                        assert(kept@ =~= kept_before.push(idx));
                        assert(kept@.map_values(|x: usize| x as int) =~= kept_before.map_values(
                            |x: usize| x as int,
                        ).push(idx as int));
                        assert(kept_before.map_values(|x: usize| x as int).push(
                            idx as int,
                        ).to_set() =~= kept_before.map_values(|x: usize| x as int).to_set().insert(
                            idx as int,
                        ));
                    }
                    assert(kept@.no_duplicates()) by {
                        assert forall|u: int| 0 <= u < kept_before.len() implies kept_before[u]
                            != idx by {
                            assert(kept_before.map_values(|x: usize| x as int).to_set().contains(
                                kept_before.map_values(|x: usize| x as int)[u],
                            ));
                            assert(processed_before.contains(kept_before[u] as int));
                        }
                        assert(kept@ =~= kept_before.push(idx));
                    }
                    let pat = pattern_of(hint_spec, length as nat, idx as nat);
                    assert(processed.contains(idx as int));
                    assert forall|q: int| 0 <= q < length implies ((#[trigger] merged@[q]
                        == Cell::Block <==> all_place(
                        processed,
                        hint_spec,
                        length as nat,
                        q,
                        Cell::Block,
                    )) && (merged@[q] == Cell::Blank <==> all_place(
                        processed,
                        hint_spec,
                        length as nat,
                        q,
                        Cell::Blank,
                    )) && merged@[q] != Cell::Unknown) by {
                        assert(merged@[q] == spec_merge(before[q], pat[q]));
                        assert(is_determined(pat[q]));
                        lemma_all_place_insert(
                            processed_before,
                            idx as int,
                            hint_spec,
                            length as nat,
                            q,
                            Cell::Block,
                        );
                        lemma_all_place_insert(
                            processed_before,
                            idx as int,
                            hint_spec,
                            length as nat,
                            q,
                            Cell::Blank,
                        );
                        assert(processed == processed_before.insert(idx as int));
                        if processed_before.len() == 0 {
                            assert(processed_before =~= Set::<int>::empty());
                            assert(before[q] == Cell::Unknown);
                            assert(merged@[q] == pat[q]);
                            assert(all_place(
                                processed_before,
                                hint_spec,
                                length as nat,
                                q,
                                Cell::Block,
                            ));
                            assert(all_place(
                                processed_before,
                                hint_spec,
                                length as nat,
                                q,
                                Cell::Blank,
                            ));
                        } else {
                            assert(processed_before.len() > 0);
                        }
                    }
                }
            }
            t = t + 1;
        }

        // every viable arrangement has now been decided
        proof {
            assert(survivors(old_cands, hint_spec, length as nat, cur) =~= processed) by {
                assert forall|i: int|
                    survivors(old_cands, hint_spec, length as nat, cur).contains(
                        i,
                    ) implies processed.contains(i) by {
                    let u = choose|u: int| 0 <= u < order@.len() && #[trigger] order@[u] == i;
                    assert(processed.contains(order@[u] as int) <==> compatible(
                        pattern_of(hint_spec, length as nat, order@[u] as nat),
                        cur,
                    ));
                }
            }
        }

        if kept.len() == 0 {
            proof {
                assert(processed.len() == 0);
                assert(processed =~= Set::<int>::empty());
                assert(survivors(old_cands, hint_spec, length as nat, cur) =~= Set::<int>::empty());
            }
            return Err("no arrangement of the hint survives the current line");
        }

        // rebuild the viable set from what survived
        let mut rebuilt = bitset_with_capacity(total);
        let mut u: usize = 0;
        proof {
            assert(kept@.take(0).map_values(|x: usize| x as int).to_set() =~= Set::<int>::empty());
        }
        while u < kept.len()
            invariant
                u <= kept@.len(),
                bitset_view(&rebuilt) == kept@.take(u as int).map_values(|x: usize| x as int)
                    .to_set(),
            decreases kept@.len() - u,
        {
            bitset_insert(&mut rebuilt, kept[u]);
            u = u + 1;
            proof {
                kept@.take(u - 1).map_values(|x: usize| x as int).lemma_push_to_set_commute(
                    kept@[u - 1] as int,
                );
                assert(kept@.take(u as int).map_values(|x: usize| x as int) =~= kept@.take(
                    u - 1,
                ).map_values(|x: usize| x as int).push(kept@[u - 1] as int));
                assert(kept@.take(u - 1).map_values(|x: usize| x as int).push(
                    kept@[u - 1] as int,
                ).to_set() =~= kept@.take(u - 1).map_values(|x: usize| x as int).to_set().insert(
                    kept@[u - 1] as int,
                ));
            }
        }
        proof {
            assert(kept@.take(kept@.len() as int) =~= kept@);
            assert(bitset_view(&rebuilt) == processed);
        }
        self.possibilities.set(line_index, rebuilt);

        // the merged pattern never reports a crash: soften disagreement to unknown
        let mut p: usize = 0;
        while p < length
            invariant
                p <= length,
                merged@.len() == length,
                processed.len() > 0,
                hint_spec == nats_of(hint@),
                forall|q: int|
                    p <= q < length ==> ((#[trigger] merged@[q] == Cell::Block <==> all_place(
                        processed,
                        hint_spec,
                        length as nat,
                        q,
                        Cell::Block,
                    )) && (merged@[q] == Cell::Blank <==> all_place(
                        processed,
                        hint_spec,
                        length as nat,
                        q,
                        Cell::Blank,
                    )) && merged@[q] != Cell::Unknown),
                forall|q: int|
                    0 <= q < p ==> ((#[trigger] merged@[q] == Cell::Block <==> all_place(
                        processed,
                        hint_spec,
                        length as nat,
                        q,
                        Cell::Block,
                    )) && (merged@[q] == Cell::Blank <==> all_place(
                        processed,
                        hint_spec,
                        length as nat,
                        q,
                        Cell::Blank,
                    )) && (merged@[q] == Cell::Block || merged@[q] == Cell::Blank || merged@[q]
                        == Cell::Unknown)),
            decreases length - p,
        {
            let c = merged[p];
            if c == Cell::Crash {
                merged.set(p, Cell::Unknown);
            }
            p = p + 1;
        }

        proof {
            assert(processed.finite() && processed.len() == kept@.len() >= 1);
            assert forall|l: int| 0 <= l < self.num_lines() implies valid_hint(
                #[trigger] self.hint_at(l),
                self.spec_length(),
            ) by {
                assert(self.hint_at(l) == old(self).hint_at(l));
                assert(valid_hint(old(self).hint_at(l), old(self).spec_length()));
            }
            assert forall|l: int| 0 <= l < self.num_lines() implies (#[trigger] self.cands(
                l,
            )).finite() && self.cands(l).len() >= 1 by {
                if l == line_index {
                    assert(self.cands(l) == processed);
                } else {
                    assert(self.cands(l) == old(self).cands(l));
                    assert(old(self).cands(l).finite() && old(self).cands(l).len() >= 1);
                }
            }
            assert forall|l: int, i: int|
                0 <= l < self.num_lines() && #[trigger] self.cands(l).contains(i) implies 0 <= i
                < self.count_at(l) by {
                assert(self.count_at(l) == old(self).count_at(l));
                if l == line_index {
                    assert(processed.contains(i));
                    assert(old_cands.contains(i));
                } else {
                    assert(self.cands(l) == old(self).cands(l));
                    assert(old(self).cands(l).contains(i));
                }
            }
            assert forall|l: int| 0 <= l < self.num_lines() implies #[trigger] self.count_at(l)
                <= usize::MAX by {
                assert(self.count_at(l) == old(self).count_at(l));
                assert(old(self).count_at(l) <= usize::MAX);
            }
            assert(self.wf());
        }
        Ok(merged)
    }
}

/// A line whose hint has a single viable arrangement merges to exactly that
/// arrangement: a forced line is fully determined by one solving pass.
pub proof fn lemma_single_survivor_forces_pattern(
    merged: Seq<Cell>,
    i: int,
    hint: Seq<nat>,
    length: nat,
)
    requires
        merged_ok(merged, set![i], hint, length),
        valid_hint(hint, length),
        0 <= i < candidate_count(hint, length),
    ensures
        merged == pattern_of(hint, length, i as nat),
{
    crate::line_pattern::lemma_pattern_matches_hint(hint, length, i as nat);
    let pat = pattern_of(hint, length, i as nat);
    assert(set![i].contains(i));
    assert forall|p: int| 0 <= p < length implies merged[p] == pat[p] by {
        assert(is_determined(pat[p]));
        if pat[p] == Cell::Block {
            assert(all_place(set![i], hint, length, p, Cell::Block));
        } else {
            assert(all_place(set![i], hint, length, p, Cell::Blank));
        }
    }
    assert(merged =~= pat);
}

/// A valid hint is short: each run takes at least one cell and one
/// separator, so there are at most about half the line's length of them.
pub proof fn lemma_valid_hint_short(hint: Seq<nat>, length: nat)
    requires
        valid_hint(hint, length),
        length <= usize::MAX,
    ensures
        hint.len() * 2 <= length + 1,
        hint.len() < usize::MAX,
{
    lemma_seq_sum_at_least_len(hint);
}

/// `all_place` over an inserted element splits into the old set and the
/// element itself.
proof fn lemma_all_place_insert(s: Set<int>, x: int, hint: Seq<nat>, length: nat, p: int, c: Cell)
    ensures
        all_place(s.insert(x), hint, length, p, c) <==> (all_place(s, hint, length, p, c)
            && pattern_of(hint, length, x as nat)[p] == c),
{
    if all_place(s.insert(x), hint, length, p, c) {
        assert(s.insert(x).contains(x));
        assert forall|i: int| s.contains(i) implies pattern_of(hint, length, i as nat)[p]
            == c by {
            assert(s.insert(x).contains(i));
        }
    }
    if all_place(s, hint, length, p, c) && pattern_of(hint, length, x as nat)[p] == c {
        assert forall|i: int| s.insert(x).contains(i) implies pattern_of(hint, length, i as nat)[p]
            == c by {
            if i != x {
                assert(s.contains(i));
            }
        }
    }
}

/// Changing only the calculator keeps a strategy well formed.
proof fn lemma_wf_frame(a: SolvingStrategy, b: SolvingStrategy)
    requires
        a.wf(),
        b.calculator.wf(),
        a.length == b.length,
        a.given_hint == b.given_hint,
        a.possibilities == b.possibilities,
    ensures
        b.wf(),
{
    assert(b.num_lines() == a.num_lines());
    assert forall|l: int| 0 <= l < b.num_lines() implies valid_hint(
        #[trigger] b.hint_at(l),
        b.spec_length(),
    ) by {
        assert(b.hint_at(l) == a.hint_at(l));
        assert(valid_hint(a.hint_at(l), a.spec_length()));
    }
    assert forall|l: int| 0 <= l < b.num_lines() implies (#[trigger] b.cands(l)).finite() by {
        assert(b.cands(l) == a.cands(l));
        assert(a.cands(l).finite());
    }
    assert forall|l: int| 0 <= l < b.num_lines() implies (#[trigger] b.cands(l)).len() >= 1 by {
        assert(b.cands(l) == a.cands(l));
        assert(a.cands(l).len() >= 1);
    }
    assert forall|l: int, i: int|
        0 <= l < b.num_lines() && #[trigger] b.cands(l).contains(i) implies 0 <= i < b.count_at(
        l,
    ) by {
        assert(b.cands(l) == a.cands(l));
        assert(a.cands(l).contains(i));
        assert(b.count_at(l) == a.count_at(l));
    }
    assert forall|l: int| 0 <= l < b.num_lines() implies #[trigger] b.count_at(l)
        <= usize::MAX by {
        assert(b.count_at(l) == a.count_at(l));
        assert(a.count_at(l) <= usize::MAX);
    }
}

/// A sequence of positive naturals sums to at least its length.
pub proof fn lemma_seq_sum_at_least_len(s: Seq<nat>)
    requires
        forall|j: int| 0 <= j < s.len() ==> s[j] >= 1,
    ensures
        crate::distribution::seq_sum(s) >= s.len(),
    decreases s.len(),
{
    if s.len() > 0 {
        lemma_seq_sum_at_least_len(s.skip(1));
    }
}

} // verus!
