//! Input adapters: the plain-text hint format and the HTML-table format,
//! parsed from bytes already read by the host.

use vstd::prelude::*;

use crate::board::Vec2;
use crate::distribution::nats_of;

verus! {

/// What every parser produces: the dimensions and both hint lists.
pub struct SolverParseResult {
    pub board_size: Vec2,
    pub row_hints: Vec<Vec<usize>>,
    pub column_hints: Vec<Vec<usize>>,
}

impl SolverParseResult {
    /// One hint per row and one per column.
    pub open spec fn consistent(&self) -> bool {
        &&& self.row_hints@.len() == self.board_size.row
        &&& self.column_hints@.len() == self.board_size.column
    }
}

pub open spec fn is_digit(b: u8) -> bool {
    48 <= b <= 57
}

/// The value of a string of decimal digits, most significant first.
pub open spec fn dec_val(s: Seq<u8>) -> nat
    decreases s.len(),
{
    if s.len() == 0 {
        0
    } else {
        dec_val(s.take(s.len() - 1)) * 10 + (if is_digit(s.last()) {
            (s.last() - 48) as nat
        } else {
            0nat
        })
    }
}

/// A digit string's value only grows as digits are appended.
proof fn lemma_dec_val_prefix(s: Seq<u8>, j: int)
    requires
        0 <= j <= s.len(),
        forall|i: int| 0 <= i < s.len() ==> is_digit(#[trigger] s[i]),
    ensures
        dec_val(s.take(j)) <= dec_val(s),
    decreases s.len(),
{
    if j < s.len() {
        assert(s.take(s.len() - 1).take(j) =~= s.take(j));
        lemma_dec_val_prefix(s.take(s.len() - 1), j);
        assert(dec_val(s) >= dec_val(s.take(s.len() - 1)));
    } else {
        assert(s.take(j) =~= s);
    }
}

/// The position of the next line break at or after `pos`, or the end.
pub open spec fn line_break(s: Seq<u8>, pos: int) -> int
    decreases s.len() - pos
        when 0 <= pos <= s.len()
{
    if pos >= s.len() {
        s.len() as int
    } else if s[pos] == 10 {
        pos
    } else {
        line_break(s, pos + 1)
    }
}

/// Where the line starting at `pos` ends: before a trailing carriage
/// return, if any.
pub open spec fn spec_line_end(s: Seq<u8>, pos: int) -> int {
    let brk = line_break(s, pos);
    if brk > pos && s[brk - 1] == 13 {
        brk - 1
    } else {
        brk
    }
}

/// Where the line after the one starting at `pos` starts.
pub open spec fn spec_next_line(s: Seq<u8>, pos: int) -> int {
    let brk = line_break(s, pos);
    if brk < s.len() {
        brk + 1
    } else {
        brk
    }
}

/// A scan that saw no line break up to a break or the end found it.
proof fn lemma_line_break_at(s: Seq<u8>, pos: int, i: int)
    requires
        0 <= pos <= i <= s.len(),
        forall|q: int| pos <= q < i ==> s[q] != 10,
        i == s.len() || s[i] == 10,
    ensures
        line_break(s, pos) == i,
    decreases i - pos,
{
    if pos < i {
        lemma_line_break_at(s, pos + 1, i);
    }
}

/// A byte that separates tokens within one line.
pub open spec fn is_line_ws(b: u8) -> bool {
    b == 32 || b == 9 || b == 13
}

/// The whitespace-separated tokens of one line, in order.
pub open spec fn spec_tokens(s: Seq<u8>) -> Seq<Seq<u8>>
    decreases s.len(),
{
    if s.len() == 0 {
        Seq::empty()
    } else if is_line_ws(s[0]) {
        spec_tokens(s.skip(1))
    } else {
        let rest = spec_tokens(s.skip(1));
        if s.len() > 1 && !is_line_ws(s[1]) {
            seq![seq![s[0]] + rest[0]] + rest.skip(1)
        } else {
            seq![seq![s[0]]] + rest
        }
    }
}

/// A token that names a number this machine can hold.
pub open spec fn numeric_token(t: Seq<u8>) -> bool {
    &&& t.len() >= 1
    &&& forall|i: int| 0 <= i < t.len() ==> is_digit(#[trigger] t[i])
    &&& dec_val(t) <= usize::MAX
}

/// The numbers of one line: the decimal values of its tokens, or nothing
/// when some token is not a number that fits.
pub open spec fn spec_line_numbers(s: Seq<u8>) -> Option<Seq<nat>> {
    if forall|k: int| 0 <= k < spec_tokens(s).len() ==> numeric_token(#[trigger] spec_tokens(s)[k]) {
        Some(spec_tokens(s).map_values(|t: Seq<u8>| dec_val(t)))
    } else {
        None
    }
}

/// A leading separator contributes no token.
proof fn lemma_tokens_ws(s: Seq<u8>)
    requires
        s.len() >= 1,
        is_line_ws(s[0]),
    ensures
        spec_tokens(s) == spec_tokens(s.skip(1)),
{
}

/// A maximal run of `k` non-separator bytes is the first token.
proof fn lemma_tokens_run(s: Seq<u8>, k: int)
    requires
        1 <= k <= s.len(),
        forall|q: int| 0 <= q < k ==> !is_line_ws(#[trigger] s[q]),
        k == s.len() || is_line_ws(s[k]),
    ensures
        spec_tokens(s) == seq![s.take(k)] + spec_tokens(s.skip(k)),
    decreases k,
{
    if k == 1 {
        if s.len() == 1 {
            assert(s.skip(1).len() == 0);
            assert(spec_tokens(s.skip(1)) =~= Seq::<Seq<u8>>::empty());
            assert(seq![s[0]] =~= s.take(1));
        } else {
            assert(is_line_ws(s[1]));
            assert(seq![s[0]] =~= s.take(1));
        }
    } else {
        assert(!is_line_ws(s[1]));
        lemma_tokens_run(s.skip(1), k - 1);
        let rest = spec_tokens(s.skip(1));
        assert(rest == seq![s.skip(1).take(k - 1)] + spec_tokens(s.skip(1).skip(k - 1)));
        assert(rest[0] == s.skip(1).take(k - 1));
        assert(seq![s[0]] + rest[0] =~= s.take(k));
        assert(rest.skip(1) =~= spec_tokens(s.skip(1).skip(k - 1)));
        assert(s.skip(1).skip(k - 1) =~= s.skip(k));
        assert(spec_tokens(s) == seq![seq![s[0]] + rest[0]] + rest.skip(1));
        assert(seq![seq![s[0]] + rest[0]] + rest.skip(1) =~= seq![s.take(k)] + spec_tokens(
            s.skip(k),
        ));
    }
}

/// Parse the decimal number in `bytes[from..to]`.
fn parse_usize(bytes: &Vec<u8>, from: usize, to: usize) -> (r: Option<usize>)
    requires
        from <= to <= bytes@.len(),
    ensures
        r matches Some(v) ==> from < to && (forall|i: int|
            from <= i < to ==> is_digit(#[trigger] bytes@[i])) && v == dec_val(
            bytes@.subrange(from as int, to as int),
        ),
        r is None ==> (from == to || (exists|i: int|
            from <= i < to && !is_digit(#[trigger] bytes@[i])) || dec_val(
            bytes@.subrange(from as int, to as int),
        ) > usize::MAX),
{
    if from == to {
        return None;
    }
    let ghost whole = bytes@.subrange(from as int, to as int);
    let mut acc: usize = 0;
    let mut i: usize = from;
    while i < to
        invariant
            from <= i <= to <= bytes@.len(),
            whole == bytes@.subrange(from as int, to as int),
            forall|q: int| from <= q < i ==> is_digit(#[trigger] bytes@[q]),
            acc == dec_val(bytes@.subrange(from as int, i as int)),
        decreases to - i,
    {
        let b = bytes[i];
        if b < 48 || b > 57 {
            return None;
        }
        let d = (b - 48) as usize;
        let ghost upto = bytes@.subrange(from as int, i + 1);
        proof {
            assert(upto.take(upto.len() - 1) =~= bytes@.subrange(from as int, i as int));
            assert(upto.last() == bytes@[i as int]);
            assert(dec_val(upto) == acc * 10 + d);
        }
        let widened = match acc.checked_mul(10) {
            Some(w) => w,
            None => {
                proof {
                    lemma_value_already_too_large(bytes@, whole, from as int, to as int, i as int, dec_val(upto));
                }
                return None;
            },
        };
        acc = match widened.checked_add(d) {
            Some(a) => a,
            None => {
                proof {
                    lemma_value_already_too_large(bytes@, whole, from as int, to as int, i as int, dec_val(upto));
                }
                return None;
            },
        };
        i = i + 1;
    }
    proof {
        assert(bytes@.subrange(from as int, to as int) =~= whole);
    }
    Some(acc)
}

/// When the digits seen so far already name a value beyond `usize`, either a
/// later byte is not a digit or the whole token's value is beyond `usize`.
proof fn lemma_value_already_too_large(
    bytes: Seq<u8>,
    whole: Seq<u8>,
    from: int,
    to: int,
    i: int,
    seen: nat,
)
    requires
        0 <= from <= i < to <= bytes.len(),
        whole == bytes.subrange(from, to),
        seen == dec_val(bytes.subrange(from, i + 1)),
        seen > usize::MAX,
        forall|q: int| from <= q <= i ==> is_digit(#[trigger] bytes[q]),
    ensures
        (exists|q: int| from <= q < to && !is_digit(#[trigger] bytes[q])) || dec_val(whole)
            > usize::MAX,
{
    if forall|q: int| from <= q < to ==> is_digit(#[trigger] bytes[q]) {
        assert(forall|q: int| 0 <= q < whole.len() ==> whole[q] == bytes[from + q]);
        assert(forall|q: int| 0 <= q < whole.len() ==> is_digit(#[trigger] whole[q]));
        lemma_dec_val_prefix(whole, i + 1 - from);
        assert(whole.take(i + 1 - from) =~= bytes.subrange(from, i + 1));
    }
}

/// Split one text line into its whitespace-separated numbers: exactly the
/// decimal values of its tokens, or `None` when a token is not a number or
/// does not fit.
fn parse_number_line(line: &Vec<u8>, from: usize, to: usize) -> (r: Option<Vec<usize>>)
    requires
        from <= to <= line@.len(),
    ensures
        r is Some <==> spec_line_numbers(line@.subrange(from as int, to as int)) is Some,
        r matches Some(v) ==> Some(nats_of(v@)) == spec_line_numbers(
            line@.subrange(from as int, to as int),
        ),
{
    let ghost s_all = line@.subrange(from as int, to as int);
    let ghost toks = spec_tokens(s_all);
    let ghost mut done: Seq<Seq<u8>> = Seq::empty();
    let mut numbers: Vec<usize> = Vec::new();
    let mut i: usize = from;
    proof {
        assert(line@.subrange(i as int, to as int) =~= s_all);
        assert(done + spec_tokens(line@.subrange(i as int, to as int)) =~= toks);
        assert(nats_of(numbers@) =~= done.map_values(|t: Seq<u8>| dec_val(t)));
    }
    while i < to
        invariant
            from <= i <= to <= line@.len(),
            s_all == line@.subrange(from as int, to as int),
            toks == spec_tokens(s_all),
            toks == done + spec_tokens(line@.subrange(i as int, to as int)),
            forall|k: int| 0 <= k < done.len() ==> numeric_token(#[trigger] done[k]),
            nats_of(numbers@) == done.map_values(|t: Seq<u8>| dec_val(t)),
        decreases to - i,
    {
        let b = line[i];
        if b == 32 || b == 9 || b == 13 {
            proof {
                let rem = line@.subrange(i as int, to as int);
                lemma_tokens_ws(rem);
                assert(rem.skip(1) =~= line@.subrange(i + 1, to as int));
            }
            i = i + 1;
        } else {
            let start = i;
            let mut in_token = true;
            while in_token
                invariant
                    from <= start <= i <= to <= line@.len(),
                    in_token || i > start,
                    forall|q: int| start <= q < i ==> !is_line_ws(#[trigger] line@[q]),
                    !in_token ==> (i == to || is_line_ws(line@[i as int])),
                    in_token && i == start ==> i < to && !is_line_ws(line@[i as int]),
                decreases to - i + (if in_token {
                    1int
                } else {
                    0int
                }),
            {
                if i < to {
                    let c = line[i];
                    if c != 32 && c != 9 && c != 13 {
                        i = i + 1;
                    } else {
                        in_token = false;
                    }
                } else {
                    in_token = false;
                }
            }
            let ghost rem = line@.subrange(start as int, to as int);
            let ghost t = line@.subrange(start as int, i as int);
            proof {
                assert(forall|q: int| 0 <= q < i - start ==> !is_line_ws(#[trigger] rem[q]));
                assert(i - start == rem.len() || is_line_ws(rem[i - start]));
                lemma_tokens_run(rem, i - start);
                assert(rem.take(i - start) =~= t);
                assert(rem.skip(i - start) =~= line@.subrange(i as int, to as int));
                assert(spec_tokens(rem) == seq![t] + spec_tokens(
                    line@.subrange(i as int, to as int),
                ));
                assert(toks == done + (seq![t] + spec_tokens(
                    line@.subrange(i as int, to as int),
                )));
                assert(0 <= done.len() < toks.len());
                assert(toks[done.len() as int] == t);
            }
            match parse_usize(line, start, i) {
                Some(v) => {
                    let ghost nums_prev = numbers@;
                    numbers.push(v);
                    proof {
                        assert(forall|q: int| 0 <= q < t.len() ==> is_digit(#[trigger] t[q]));
                        assert(numeric_token(t));
                        let done_prev = done;
                        done = done.push(t);
                        assert(done =~= done_prev + seq![t]);
                        let rest = spec_tokens(line@.subrange(i as int, to as int));
                        assert(toks == done_prev + (seq![t] + rest));
                        assert(done + rest =~= done_prev + (seq![t] + rest));
                        assert(toks == done + rest);
                        assert(nats_of(nums_prev).len() == done_prev.map_values(
                            |u: Seq<u8>| dec_val(u),
                        ).len());
                        assert(nums_prev.len() == done_prev.len());
                        assert(numbers@ == nums_prev.push(v));
                        assert forall|k: int|
                            0 <= k < done.len() implies nats_of(numbers@)[k] == done.map_values(
                            |u: Seq<u8>| dec_val(u),
                        )[k] by {
                            if k < done_prev.len() {
                                assert(numbers@[k] == nums_prev[k]);
                                assert(nats_of(numbers@)[k] == numbers@[k] as nat);
                                assert(nats_of(nums_prev)[k] == nums_prev[k] as nat);
                                assert(done.map_values(|u: Seq<u8>| dec_val(u))[k] == dec_val(
                                    done_prev[k],
                                ));
                                assert(done_prev.map_values(|u: Seq<u8>| dec_val(u))[k] == dec_val(
                                    done_prev[k],
                                ));
                            } else {
                                assert(numbers@[k] == v);
                                assert(done[k] == t);
                                assert(v as nat == dec_val(t));
                            }
                        }
                        assert(nats_of(numbers@) =~= done.map_values(|u: Seq<u8>| dec_val(u)));
                    }
                },
                None => {
                    proof {
                        if exists|q: int| start <= q < i && !is_digit(#[trigger] line@[q]) {
                            let q = choose|q: int|
                                start <= q < i && !is_digit(#[trigger] line@[q]);
                            assert(t[q - start] == line@[q]);
                            assert(!numeric_token(t));
                        } else {
                            assert(dec_val(t) > usize::MAX);
                            assert(!numeric_token(t));
                        }
                        assert(!(forall|k: int|
                            0 <= k < toks.len() ==> numeric_token(#[trigger] toks[k])));
                    }
                    return None;
                },
            }
        }
    }
    proof {
        assert(line@.subrange(to as int, to as int).len() == 0);
        assert(spec_tokens(line@.subrange(to as int, to as int)) =~= Seq::<Seq<u8>>::empty());
        assert(toks =~= done);
        assert(spec_line_numbers(s_all) == Some(toks.map_values(|t: Seq<u8>| dec_val(t))));
    }
    Some(numbers)
}

/// A list of hints as the mathematical sequences they denote.
pub open spec fn hints_view(v: Seq<Vec<usize>>) -> Seq<Seq<nat>> {
    v.map_values(|h: Vec<usize>| nats_of(h@))
}

/// The numbers of `n` consecutive lines from `pos`, and where the scan ends;
/// nothing when a line is missing or one of its tokens is not a number.
pub open spec fn spec_parse_hint_lines(s: Seq<u8>, pos: int, n: nat) -> Option<
    (Seq<Seq<nat>>, int),
>
    decreases n,
{
    if n == 0 {
        Some((Seq::empty(), pos))
    } else if pos >= s.len() {
        None
    } else {
        match spec_line_numbers(s.subrange(pos, spec_line_end(s, pos))) {
            None => None,
            Some(hint) => match spec_parse_hint_lines(
                s,
                spec_next_line(s, pos),
                (n - 1) as nat,
            ) {
                None => None,
                Some(rest) => Some((seq![hint] + rest.0, rest.1)),
            },
        }
    }
}

/// Hints already read go in front of whatever a scan still yields.
pub open spec fn prepend_hints(done: Seq<Seq<nat>>, rest: Option<(Seq<Seq<nat>>, int)>) -> Option<
    (Seq<Seq<nat>>, int),
> {
    match rest {
        None => None,
        Some(r2) => Some((done + r2.0, r2.1)),
    }
}

/// What the format yields once the counts are known: one hint line per row
/// from `hstart`, then one per column.
pub open spec fn puzzle_from(s: Seq<u8>, hstart: int, rows: nat, cols: nat) -> Option<
    (nat, nat, Seq<Seq<nat>>, Seq<Seq<nat>>),
> {
    match spec_parse_hint_lines(s, hstart, rows) {
        None => None,
        Some(rh) => match spec_parse_hint_lines(s, rh.1, cols) {
            None => None,
            Some(ch) => Some((rows, cols, rh.0, ch.0)),
        },
    }
}

/// The whole plain-text format: an optional byte-order mark, a first line
/// holding at least the row and column counts, then one hint line per row
/// and one per column.
pub open spec fn spec_parse_puzzle(s: Seq<u8>) -> Option<(nat, nat, Seq<Seq<nat>>, Seq<Seq<nat>>)> {
    let pos0: int = if s.len() >= 3 && s[0] == 0xef && s[1] == 0xbb && s[2] == 0xbf {
        3
    } else {
        0
    };
    let end0 = spec_line_end(s, pos0);
    let next0 = spec_next_line(s, pos0);
    if pos0 == end0 && next0 >= s.len() {
        None
    } else {
        match spec_line_numbers(s.subrange(pos0, end0)) {
            None => None,
            Some(counts) => if counts.len() < 2 {
                None
            } else {
                match spec_parse_hint_lines(s, next0, counts[0]) {
                    None => None,
                    Some(rh) => match spec_parse_hint_lines(s, rh.1, counts[1]) {
                        None => None,
                        Some(ch) => Some((counts[0], counts[1], rh.0, ch.0)),
                    },
                }
            },
        }
    }
}

/// Parse the plain-text hint format: a line with the row and column counts,
/// then one hint line per row, then one per column.  A leading byte-order
/// mark is tolerated.  Success and the result are exactly what
/// `spec_parse_puzzle` says of the bytes; in particular the result carries
/// one hint per row and one per column, each hint the decimal values of its
/// line's tokens.
pub fn parse_puzzle_text(content: &Vec<u8>) -> (r: Result<SolverParseResult, &'static str>)
    ensures
        r is Ok <==> spec_parse_puzzle(content@) is Some,
        r matches Ok(res) ==> ({
            let p = spec_parse_puzzle(content@)->Some_0;
            &&& res.board_size.row == p.0
            &&& res.board_size.column == p.1
            &&& hints_view(res.row_hints@) == p.2
            &&& hints_view(res.column_hints@) == p.3
            &&& res.consistent()
        }),
{
    let ghost cs = content@;
    let len = content.len();
    let mut pos: usize = 0;
    // strip a UTF-8 byte-order mark
    if len >= 3 && content[0] == 0xef && content[1] == 0xbb && content[2] == 0xbf {
        pos = 3;
    }
    let ghost pos0 = pos as int;

    // the first line holds the two counts
    let (first_start, first_end, mut pos) = next_line(content, pos);
    if first_start == first_end && pos >= len {
        proof {
            assert(spec_parse_puzzle(cs) is None);
        }
        return Err("File is empty.");
    }
    let counts = match parse_number_line(content, first_start, first_end) {
        Some(v) => v,
        None => {
            proof {
                assert(spec_parse_puzzle(cs) is None);
            }
            return Err("Failed to parse row count.");
        },
    };
    proof {
        assert(Some(nats_of(counts@)) == spec_line_numbers(cs.subrange(pos0, spec_line_end(cs, pos0))));
    }
    if counts.len() == 0 {
        proof {
            assert(nats_of(counts@).len() < 2);
            assert(spec_parse_puzzle(cs) is None);
        }
        return Err("Row count not found.");
    }
    if counts.len() < 2 {
        proof {
            assert(nats_of(counts@).len() < 2);
            assert(spec_parse_puzzle(cs) is None);
        }
        return Err("Column count not found.");
    }
    let row_count = counts[0];
    let column_count = counts[1];
    proof {
        assert(nats_of(counts@).len() >= 2);
        assert(nats_of(counts@)[0] == row_count as nat);
        assert(nats_of(counts@)[1] == column_count as nat);
    }

    let ghost hstart = pos as int;
    let mut row_hints: Vec<Vec<usize>> = Vec::new();
    let mut r: usize = 0;
    proof {
        // the whole parse now hinges on the hint lines alone
        assert(spec_parse_puzzle(cs) == puzzle_from(
            cs,
            hstart,
            row_count as nat,
            column_count as nat,
        ));
        match spec_parse_hint_lines(cs, hstart, row_count as nat) {
            None => {
            },
            Some(rh) => {
                assert(Seq::<Seq<nat>>::empty() + rh.0 =~= rh.0);
            },
        }
    }
    while r < row_count
        invariant
            cs == content@,
            row_hints@.len() == r,
            r <= row_count,
            pos <= content@.len(),
            spec_parse_hint_lines(cs, hstart, row_count as nat) == prepend_hints(
                hints_view(row_hints@),
                spec_parse_hint_lines(cs, pos as int, (row_count - r) as nat),
            ),
            spec_parse_puzzle(cs) == puzzle_from(
                cs,
                hstart,
                row_count as nat,
                column_count as nat,
            ),
        decreases row_count - r,
    {
        if pos >= content.len() {
            proof {
                assert(spec_parse_hint_lines(cs, pos as int, (row_count - r) as nat) is None);
                assert(spec_parse_hint_lines(cs, hstart, row_count as nat) is None);
                assert(spec_parse_puzzle(cs) is None);
            }
            return Err("Not enough row hints.");
        }
        let (s, e, next) = next_line(content, pos);
        let ghost line_pos = pos as int;
        pos = next;
        match parse_number_line(content, s, e) {
            Some(hint) => {
                let ghost prev_hints = row_hints@;
                row_hints.push(hint);
                r = r + 1;
                proof {
                    lemma_hint_lines_step(
                        cs,
                        line_pos,
                        (row_count - r + 1) as nat,
                        nats_of(hint@),
                    );
                    assert(hints_view(row_hints@) =~= hints_view(prev_hints) + seq![nats_of(
                        hint@,
                    )]);
                    lemma_prepend_shift(
                        hints_view(prev_hints),
                        nats_of(hint@),
                        spec_parse_hint_lines(cs, pos as int, (row_count - r) as nat),
                    );
                }
            },
            None => {
                proof {
                    assert(spec_parse_hint_lines(cs, line_pos, (row_count - r) as nat) is None);
                    assert(spec_parse_hint_lines(cs, hstart, row_count as nat) is None);
                    assert(spec_parse_puzzle(cs) is None);
                }
                return Err("Failed to parse row hint.");
            },
        }
    }
    proof {
        assert(spec_parse_hint_lines(cs, pos as int, 0) == Some((Seq::<Seq<nat>>::empty(), pos as int)));
        assert(hints_view(row_hints@) + Seq::<Seq<nat>>::empty() =~= hints_view(row_hints@));
        assert(spec_parse_hint_lines(cs, hstart, row_count as nat) == Some(
            (hints_view(row_hints@), pos as int),
        ));
    }

    let ghost cstart = pos as int;
    let mut column_hints: Vec<Vec<usize>> = Vec::new();
    let mut c: usize = 0;
    while c < column_count
        invariant
            cs == content@,
            column_hints@.len() == c,
            c <= column_count,
            pos <= content@.len(),
            spec_parse_hint_lines(cs, hstart, row_count as nat) == Some(
                (hints_view(row_hints@), cstart),
            ),
            spec_parse_hint_lines(cs, cstart, column_count as nat) == prepend_hints(
                hints_view(column_hints@),
                spec_parse_hint_lines(cs, pos as int, (column_count - c) as nat),
            ),
            spec_parse_puzzle(cs) == puzzle_from(
                cs,
                hstart,
                row_count as nat,
                column_count as nat,
            ),
        decreases column_count - c,
    {
        if pos >= content.len() {
            proof {
                assert(spec_parse_hint_lines(cs, pos as int, (column_count - c) as nat) is None);
                assert(spec_parse_hint_lines(cs, cstart, column_count as nat) is None);
                assert(spec_parse_puzzle(cs) is None);
            }
            return Err("Not enough column hints.");
        }
        let (s, e, next) = next_line(content, pos);
        let ghost line_pos = pos as int;
        pos = next;
        match parse_number_line(content, s, e) {
            Some(hint) => {
                let ghost prev_hints = column_hints@;
                column_hints.push(hint);
                c = c + 1;
                proof {
                    lemma_hint_lines_step(
                        cs,
                        line_pos,
                        (column_count - c + 1) as nat,
                        nats_of(hint@),
                    );
                    assert(hints_view(column_hints@) =~= hints_view(prev_hints) + seq![nats_of(
                        hint@,
                    )]);
                    lemma_prepend_shift(
                        hints_view(prev_hints),
                        nats_of(hint@),
                        spec_parse_hint_lines(cs, pos as int, (column_count - c) as nat),
                    );
                }
            },
            None => {
                proof {
                    assert(spec_parse_hint_lines(cs, line_pos, (column_count - c) as nat) is None);
                    assert(spec_parse_hint_lines(cs, cstart, column_count as nat) is None);
                    assert(spec_parse_puzzle(cs) is None);
                }
                return Err("Failed to parse column hint.");
            },
        }
    }
    proof {
        assert(spec_parse_hint_lines(cs, pos as int, 0) == Some((Seq::<Seq<nat>>::empty(), pos as int)));
        assert(hints_view(column_hints@) + Seq::<Seq<nat>>::empty() =~= hints_view(column_hints@));
        assert(spec_parse_hint_lines(cs, cstart, column_count as nat) == Some(
            (hints_view(column_hints@), pos as int),
        ));
        assert(spec_parse_puzzle(cs) == Some(
            (
                row_count as nat,
                column_count as nat,
                hints_view(row_hints@),
                hints_view(column_hints@),
            ),
        ));
        assert(hints_view(row_hints@).len() == row_hints@.len());
        assert(hints_view(column_hints@).len() == column_hints@.len());
    }

    Ok(
        SolverParseResult {
            board_size: Vec2 { row: row_count, column: column_count },
            row_hints,
            column_hints,
        },
    )
}

/// One line of a multi-line scan: the scan of `n` lines from `pos` is the
/// line at `pos` followed by the scan of the rest.
proof fn lemma_hint_lines_step(s: Seq<u8>, pos: int, n: nat, hint: Seq<nat>)
    requires
        n >= 1,
        0 <= pos < s.len(),
        spec_line_numbers(s.subrange(pos, spec_line_end(s, pos))) == Some(hint),
    ensures
        spec_parse_hint_lines(s, pos, n) == prepend_hints(
            seq![hint],
            spec_parse_hint_lines(s, spec_next_line(s, pos), (n - 1) as nat),
        ),
{
    match spec_parse_hint_lines(s, spec_next_line(s, pos), (n - 1) as nat) {
        None => {
        },
        Some(rest) => {
        },
    }
}

/// Prepending one hint and then the earlier ones is prepending them all.
proof fn lemma_prepend_shift(done: Seq<Seq<nat>>, hint: Seq<nat>, rest: Option<
    (Seq<Seq<nat>>, int),
>)
    ensures
        prepend_hints(done, prepend_hints(seq![hint], rest)) == prepend_hints(
            done + seq![hint],
            rest,
        ),
{
    match rest {
        None => {
        },
        Some(r2) => {
            assert(done + (seq![hint] + r2.0) =~= (done + seq![hint]) + r2.0);
        },
    }
}

/// The next line of `content` from `pos`: its byte range without the
/// newline (and without a trailing carriage return), and where the line
/// after it starts.
fn next_line(content: &Vec<u8>, pos: usize) -> (r: (usize, usize, usize))
    requires
        pos <= content@.len(),
    ensures
        r.0 == pos,
        r.1 == spec_line_end(content@, pos as int),
        r.2 == spec_next_line(content@, pos as int),
        pos <= r.1 <= content@.len(),
        r.2 <= content@.len(),
        pos < r.2 || pos == content@.len(),
{
    let len = content.len();
    let start = pos;
    let mut i: usize = pos;
    while i < len && content[i] != 10
        invariant
            pos <= i <= len,
            len == content@.len(),
            forall|q: int| pos <= q < i ==> content@[q] != 10,
        decreases len - i,
    {
        i = i + 1;
    }
    proof {
        lemma_line_break_at(content@, pos as int, i as int);
    }
    let next = if i < len {
        i + 1
    } else {
        len
    };
    let mut end = i;
    if end > start && content[end - 1] == 13 {
        end = end - 1;
    }
    (start, end, next)
}

/// Whether `needle` occurs in `hay` starting at position `at`.
pub open spec fn matches_at(hay: Seq<u8>, needle: Seq<u8>, at: int) -> bool {
    &&& 0 <= at
    &&& at + needle.len() <= hay.len()
    &&& forall|j: int| 0 <= j < needle.len() ==> hay[at + j] == #[trigger] needle[j]
}

/// The first occurrence of `needle` in `hay` at or after `from`, if any.
pub open spec fn first_match(hay: Seq<u8>, needle: Seq<u8>, from: int) -> Option<int>
    decreases hay.len() - from
        when 0 <= from
{
    if from + needle.len() > hay.len() {
        None
    } else if matches_at(hay, needle, from) {
        Some(from)
    } else {
        first_match(hay, needle, from + 1)
    }
}

/// A scan that saw no match up to a match found the first one.
proof fn lemma_first_match_at(hay: Seq<u8>, needle: Seq<u8>, from: int, at: int)
    requires
        0 <= from <= at,
        matches_at(hay, needle, at),
        forall|q: int| from <= q < at ==> !matches_at(hay, needle, q),
    ensures
        first_match(hay, needle, from) == Some(at),
    decreases at - from,
{
    if from < at {
        lemma_first_match_at(hay, needle, from + 1, at);
    }
}

/// A scan that ran out of room found nothing.
proof fn lemma_first_match_none(hay: Seq<u8>, needle: Seq<u8>, from: int)
    requires
        0 <= from,
        forall|q: int| from <= q ==> !matches_at(hay, needle, q),
    ensures
        first_match(hay, needle, from) is None,
    decreases hay.len() - from,
{
    if from + needle.len() <= hay.len() {
        lemma_first_match_none(hay, needle, from + 1);
    }
}

/// The first occurrence of `needle` in `hay` at or after `from`.
fn find_from(hay: &Vec<u8>, needle: &Vec<u8>, from: usize) -> (r: Option<usize>)
    requires
        from <= hay@.len(),
        needle@.len() >= 1,
    ensures
        r matches Some(at) ==> from <= at && matches_at(hay@, needle@, at as int) && at
            + needle@.len() <= hay@.len() && first_match(hay@, needle@, from as int) == Some(
            at as int,
        ),
        r is None ==> (forall|at: int| from <= at ==> !matches_at(hay@, needle@, at))
            && first_match(hay@, needle@, from as int) is None,
{
    let hay_len = hay.len();
    let n_len = needle.len();
    if n_len > hay_len {
        proof {
            assert(forall|q: int| from <= q ==> !matches_at(hay@, needle@, q));
            lemma_first_match_none(hay@, needle@, from as int);
        }
        return None;
    }
    if from > hay_len - n_len {
        proof {
            assert forall|q: int| from <= q implies !matches_at(hay@, needle@, q) by {}
            lemma_first_match_none(hay@, needle@, from as int);
        }
        return None;
    }
    let mut at: usize = from;
    while at <= hay_len - n_len
        invariant
            from <= at,
            n_len == needle@.len(),
            hay_len == hay@.len(),
            1 <= n_len <= hay_len,
            forall|q: int| from <= q < at ==> !matches_at(hay@, needle@, q),
        decreases hay_len - at,
    {
        proof {
            assert(at + n_len <= hay_len);
        }
        let mut j: usize = 0;
        let mut hit = true;
        while j < n_len
            invariant
                at + n_len <= hay_len,
                n_len == needle@.len(),
                hay_len == hay@.len(),
                j <= n_len,
                hit == (forall|q: int| 0 <= q < j ==> hay@[at + q] == #[trigger] needle@[q]),
            decreases n_len - j,
        {
            if hay[at + j] != needle[j] {
                hit = false;
            }
            j = j + 1;
        }
        if hit {
            proof {
                lemma_first_match_at(hay@, needle@, from as int, at as int);
            }
            return Some(at);
        }
        at = at + 1;
    }
    proof {
        assert forall|q: int| from <= q implies !matches_at(hay@, needle@, q) by {
            if q + needle@.len() <= hay@.len() {
                assert(q <= hay@.len() - needle@.len());
                assert(q < at);
            }
        }
        lemma_first_match_none(hay@, needle@, from as int);
    }
    None
}

/// A value already scanned goes in front of whatever a scan still yields.
pub open spec fn prepend_cells(done: Seq<Seq<nat>>, rest: Option<Seq<Seq<nat>>>) -> Option<
    Seq<Seq<nat>>,
> {
    match rest {
        None => None,
        Some(r2) => Some(done + r2),
    }
}

pub open spec fn prepend_values(done: Seq<nat>, rest: Option<Seq<nat>>) -> Option<Seq<nat>> {
    match rest {
        None => None,
        Some(r2) => Some(done + r2),
    }
}

/// The bytes of the markup marking the opening of a column-hint header cell.
pub open spec fn col_marker_bytes() -> Seq<u8> {
    seq![60u8, 116u8, 100u8, 32u8, 100u8, 97u8, 116u8, 97u8, 45u8, 114u8, 111u8, 119u8, 61u8, 34u8, 45u8, 49u8, 34u8, 32u8, 100u8, 97u8, 116u8, 97u8, 45u8, 99u8, 111u8, 108u8, 61u8, 34u8]
}

fn build_col_marker() -> (r: Vec<u8>)
    ensures
        r@ == col_marker_bytes(),
        r@.len() == 28,
{
    let mut v: Vec<u8> = Vec::new();
    v.push(60);
    v.push(116);
    v.push(100);
    v.push(32);
    v.push(100);
    v.push(97);
    v.push(116);
    v.push(97);
    v.push(45);
    v.push(114);
    v.push(111);
    v.push(119);
    v.push(61);
    v.push(34);
    v.push(45);
    v.push(49);
    v.push(34);
    v.push(32);
    v.push(100);
    v.push(97);
    v.push(116);
    v.push(97);
    v.push(45);
    v.push(99);
    v.push(111);
    v.push(108);
    v.push(61);
    v.push(34);
    proof {
        assert(v@ =~= col_marker_bytes());
    }
    v
}

/// The bytes of the markup marking the end of a table cell.
pub open spec fn td_close_bytes() -> Seq<u8> {
    seq![60u8, 47u8, 116u8, 100u8, 62u8]
}

fn build_td_close() -> (r: Vec<u8>)
    ensures
        r@ == td_close_bytes(),
        r@.len() == 5,
{
    let mut v: Vec<u8> = Vec::new();
    v.push(60);
    v.push(47);
    v.push(116);
    v.push(100);
    v.push(62);
    proof {
        assert(v@ =~= td_close_bytes());
    }
    v
}

/// The bytes of the markup marking the start of the table body.
pub open spec fn tbody_open_bytes() -> Seq<u8> {
    seq![60u8, 116u8, 98u8, 111u8, 100u8, 121u8, 62u8]
}

fn build_tbody_open() -> (r: Vec<u8>)
    ensures
        r@ == tbody_open_bytes(),
        r@.len() == 7,
{
    let mut v: Vec<u8> = Vec::new();
    v.push(60);
    v.push(116);
    v.push(98);
    v.push(111);
    v.push(100);
    v.push(121);
    v.push(62);
    proof {
        assert(v@ =~= tbody_open_bytes());
    }
    v
}

/// The bytes of the markup marking the end of the table body.
pub open spec fn tbody_close_bytes() -> Seq<u8> {
    seq![60u8, 47u8, 116u8, 98u8, 111u8, 100u8, 121u8, 62u8]
}

fn build_tbody_close() -> (r: Vec<u8>)
    ensures
        r@ == tbody_close_bytes(),
        r@.len() == 8,
{
    let mut v: Vec<u8> = Vec::new();
    v.push(60);
    v.push(47);
    v.push(116);
    v.push(98);
    v.push(111);
    v.push(100);
    v.push(121);
    v.push(62);
    proof {
        assert(v@ =~= tbody_close_bytes());
    }
    v
}

/// The bytes of the markup marking the start of a table row.
pub open spec fn tr_open_bytes() -> Seq<u8> {
    seq![60u8, 116u8, 114u8]
}

fn build_tr_open() -> (r: Vec<u8>)
    ensures
        r@ == tr_open_bytes(),
        r@.len() == 3,
{
    let mut v: Vec<u8> = Vec::new();
    v.push(60);
    v.push(116);
    v.push(114);
    proof {
        assert(v@ =~= tr_open_bytes());
    }
    v
}

/// The bytes of the markup marking the start of a hint container.
pub open spec fn div_open_bytes() -> Seq<u8> {
    seq![60u8, 100u8, 105u8, 118u8, 62u8]
}

fn build_div_open() -> (r: Vec<u8>)
    ensures
        r@ == div_open_bytes(),
        r@.len() == 5,
{
    let mut v: Vec<u8> = Vec::new();
    v.push(60);
    v.push(100);
    v.push(105);
    v.push(118);
    v.push(62);
    proof {
        assert(v@ =~= div_open_bytes());
    }
    v
}

/// The bytes of the markup marking the end of a hint container.
pub open spec fn div_close_bytes() -> Seq<u8> {
    seq![60u8, 47u8, 100u8, 105u8, 118u8, 62u8]
}

fn build_div_close() -> (r: Vec<u8>)
    ensures
        r@ == div_close_bytes(),
        r@.len() == 6,
{
    let mut v: Vec<u8> = Vec::new();
    v.push(60);
    v.push(47);
    v.push(100);
    v.push(105);
    v.push(118);
    v.push(62);
    proof {
        assert(v@ =~= div_close_bytes());
    }
    v
}

/// The bytes of the markup marking the start of one hint number.
pub open spec fn span_open_bytes() -> Seq<u8> {
    seq![60u8, 115u8, 112u8, 97u8, 110u8, 62u8]
}

fn build_span_open() -> (r: Vec<u8>)
    ensures
        r@ == span_open_bytes(),
        r@.len() == 6,
{
    let mut v: Vec<u8> = Vec::new();
    v.push(60);
    v.push(115);
    v.push(112);
    v.push(97);
    v.push(110);
    v.push(62);
    proof {
        assert(v@ =~= span_open_bytes());
    }
    v
}

/// The bytes of the markup marking the end of one hint number.
pub open spec fn span_close_bytes() -> Seq<u8> {
    seq![60u8, 47u8, 115u8, 112u8, 97u8, 110u8, 62u8]
}

fn build_span_close() -> (r: Vec<u8>)
    ensures
        r@ == span_close_bytes(),
        r@.len() == 7,
{
    let mut v: Vec<u8> = Vec::new();
    v.push(60);
    v.push(47);
    v.push(115);
    v.push(112);
    v.push(97);
    v.push(110);
    v.push(62);
    proof {
        assert(v@ =~= span_close_bytes());
    }
    v
}

/// The numbers wrapped in span tags between `pos` and `to`: each opening tag
/// pairs with the next closing tag, whose content must be a number.  The
/// guards that a found match cannot lie behind the scan point keep the
/// recursion total; a real search never takes them.
pub open spec fn spec_span_values(hay: Seq<u8>, pos: int, to: int) -> Option<Seq<nat>>
    decreases hay.len() + 2 - pos
        when 0 <= pos
{
    if pos > to {
        Some(Seq::empty())
    } else {
        match first_match(hay, span_open_bytes(), pos) {
            None => Some(Seq::empty()),
            Some(open_at) => if open_at >= to {
                Some(Seq::empty())
            } else {
                let digits_start = open_at + 6;
                if digits_start < pos || digits_start > hay.len() {
                    Some(Seq::empty())
                } else {
                    match first_match(hay, span_close_bytes(), digits_start) {
                        None => Some(Seq::empty()),
                        Some(close_at) => if close_at > to {
                            Some(Seq::empty())
                        } else if close_at + 7 <= pos || close_at + 7 > hay.len() + 1 {
                            Some(Seq::empty())
                        } else {
                            let t = hay.subrange(digits_start, close_at);
                            if !numeric_token(t) {
                                None
                            } else {
                                match spec_span_values(hay, close_at + 7, to) {
                                    None => None,
                                    Some(rest) => Some(seq![dec_val(t)] + rest),
                                }
                            }
                        },
                    }
                }
            },
        }
    }
}

/// Collect the numbers wrapped in span tags within `hay[from..to]`, exactly
/// as `spec_span_values` reads them.
fn collect_span_numbers(hay: &Vec<u8>, from: usize, to: usize) -> (r: Option<Vec<usize>>)
    requires
        from <= to <= hay@.len(),
    ensures
        r is Some <==> spec_span_values(hay@, from as int, to as int) is Some,
        r matches Some(v) ==> Some(nats_of(v@)) == spec_span_values(
            hay@,
            from as int,
            to as int,
        ),
{
    let open_tag: Vec<u8> = build_span_open();
    let close_tag: Vec<u8> = build_span_close();
    let mut numbers: Vec<usize> = Vec::new();
    let hay_len = hay.len();
    let mut pos = from;
    let mut ended = false;
    proof {
        assert(nats_of(numbers@) =~= Seq::<nat>::empty());
    }
    while !ended
        invariant
            hay_len == hay@.len(),
            from <= pos <= hay@.len(),
            to <= hay@.len(),
            open_tag@ == span_open_bytes(),
            close_tag@ == span_close_bytes(),
            spec_span_values(hay@, from as int, to as int) == prepend_values(
                nats_of(numbers@),
                spec_span_values(hay@, pos as int, to as int),
            ),
            ended ==> spec_span_values(hay@, pos as int, to as int) == Some(Seq::<nat>::empty()),
        decreases hay@.len() + 1 - pos + (if ended {
            0int
        } else {
            1int
        }),
    {
        if pos > to {
            ended = true;
        } else {
            let open_at = match find_from(hay, &open_tag, pos) {
                Some(a) => a,
                None => {
                    ended = true;
                    continue ;
                },
            };
            proof {
                assert(open_at + open_tag@.len() <= hay@.len());
            }
            if open_at >= to {
                ended = true;
                continue ;
            }
            let digits_start = open_at + 6;
            let close_at = match find_from(hay, &close_tag, digits_start) {
                Some(a) => a,
                None => {
                    ended = true;
                    continue ;
                },
            };
            proof {
                assert(close_at + close_tag@.len() <= hay@.len());
                assert(digits_start <= close_at);
            }
            if close_at > to {
                ended = true;
                continue ;
            }
            let ghost t = hay@.subrange(digits_start as int, close_at as int);
            match parse_usize(hay, digits_start, close_at) {
                Some(v) => {
                    let ghost nums_prev = numbers@;
                    numbers.push(v);
                    proof {
                        assert(numeric_token(t));
                        assert(spec_span_values(hay@, pos as int, to as int) == prepend_values(
                            seq![dec_val(t)],
                            spec_span_values(hay@, close_at + 7, to as int),
                        ));
                        assert(nats_of(numbers@) =~= nats_of(nums_prev) + seq![dec_val(t)]);
                        match spec_span_values(hay@, close_at + 7, to as int) {
                            None => {
                            },
                            Some(rest) => {
                                assert(nats_of(nums_prev) + (seq![dec_val(t)] + rest) =~= (
                                nats_of(nums_prev) + seq![dec_val(t)]) + rest);
                            },
                        }
                    }
                    pos = close_at + 7;
                },
                None => {
                    proof {
                        if exists|q: int|
                            digits_start <= q < close_at && !is_digit(#[trigger] hay@[q]) {
                            let q = choose|q: int|
                                digits_start <= q < close_at && !is_digit(#[trigger] hay@[q]);
                            assert(t[q - digits_start] == hay@[q]);
                            assert(!numeric_token(t));
                        } else {
                            assert(!numeric_token(t));
                        }
                        assert(spec_span_values(hay@, pos as int, to as int) is None);
                        assert(spec_span_values(hay@, from as int, to as int) is None);
                    }
                    return None;
                },
            }
        }
    }
    proof {
        assert(nats_of(numbers@) + Seq::<nat>::empty() =~= nats_of(numbers@));
        assert(spec_span_values(hay@, from as int, to as int) == Some(nats_of(numbers@)));
    }
    Some(numbers)
}

/// The column hints: the span numbers of every header cell that opens with
/// the column marker, left to right.  The totality guards are never taken by
/// a real search.
pub open spec fn spec_column_cells(hay: Seq<u8>, pos: int) -> Option<Seq<Seq<nat>>>
    decreases hay.len() + 2 - pos
        when 0 <= pos
{
    match first_match(hay, col_marker_bytes(), pos) {
        None => Some(Seq::empty()),
        Some(open_at) => {
            let cell_start = open_at + 28;
            if cell_start < pos || cell_start > hay.len() {
                Some(Seq::empty())
            } else {
                match first_match(hay, td_close_bytes(), cell_start) {
                    None => Some(Seq::empty()),
                    Some(cell_end) => if cell_end + 5 <= pos || cell_end + 5 > hay.len() + 1 {
                        Some(Seq::empty())
                    } else {
                        match spec_span_values(hay, cell_start, cell_end) {
                            None => None,
                            Some(nums) => match spec_column_cells(hay, cell_end + 5) {
                                None => None,
                                Some(rest) => Some(seq![nums] + rest),
                            },
                        }
                    },
                }
            }
        },
    }
}

/// The row hints: for each table row inside the body, the span numbers of
/// its first hint container; rows without numbers contribute nothing.  The
/// totality guards are never taken by a real search.
pub open spec fn spec_row_cells(hay: Seq<u8>, pos: int, body_end: int) -> Option<Seq<Seq<nat>>>
    decreases hay.len() + 2 - pos
        when 0 <= pos
{
    match first_match(hay, tr_open_bytes(), pos) {
        None => Some(Seq::empty()),
        Some(tr_at) => if tr_at >= body_end || tr_at < pos {
            Some(Seq::empty())
        } else {
            match first_match(hay, div_open_bytes(), tr_at) {
                None => Some(Seq::empty()),
                Some(div_at) => if div_at >= body_end || div_at < tr_at {
                    Some(Seq::empty())
                } else {
                    let div_start = div_at + 5;
                    if div_start > hay.len() {
                        Some(Seq::empty())
                    } else {
                        match first_match(hay, div_close_bytes(), div_start) {
                            None => Some(Seq::empty()),
                            Some(div_end) => if div_end + 6 <= pos || div_end + 6 > hay.len()
                                + 1 {
                                Some(Seq::empty())
                            } else {
                                match spec_span_values(hay, div_start, div_end) {
                                    None => None,
                                    Some(nums) => match spec_row_cells(
                                        hay,
                                        div_end + 6,
                                        body_end,
                                    ) {
                                        None => None,
                                        Some(rest) => Some(
                                            if nums.len() > 0 {
                                                seq![nums] + rest
                                            } else {
                                                rest
                                            },
                                        ),
                                    },
                                }
                            },
                        }
                    }
                },
            }
        },
    }
}

/// The whole HTML-table format: column hints from the header cells, row
/// hints from the body rows, both nonempty.
pub open spec fn spec_parse_html(s: Seq<u8>) -> Option<(Seq<Seq<nat>>, Seq<Seq<nat>>)> {
    match spec_column_cells(s, 0) {
        None => None,
        Some(cols) => match first_match(s, tbody_open_bytes(), 0) {
            None => None,
            Some(body_start) => match first_match(s, tbody_close_bytes(), body_start) {
                None => None,
                Some(body_end) => match spec_row_cells(s, body_start, body_end) {
                    None => None,
                    Some(rows) => if rows.len() >= 1 && cols.len() >= 1 {
                        Some((rows, cols))
                    } else {
                        None
                    },
                },
            },
        },
    }
}

/// Parse the HTML-table format: column hints live in the header cells that
/// carry a negative row attribute, row hints in the first hint container of
/// each body row.  Success and the result are exactly what `spec_parse_html`
/// says of the bytes; in particular the result carries exactly one hint per
/// row and per column, and at least one of each.
pub fn parse_html_table(content: &Vec<u8>) -> (r: Result<SolverParseResult, &'static str>)
    ensures
        r is Ok <==> spec_parse_html(content@) is Some,
        r matches Ok(res) ==> ({
            let p = spec_parse_html(content@)->Some_0;
            &&& hints_view(res.row_hints@) == p.0
            &&& hints_view(res.column_hints@) == p.1
            &&& res.board_size.row == p.0.len()
            &&& res.board_size.column == p.1.len()
            &&& res.consistent()
            &&& res.board_size.row >= 1
            &&& res.board_size.column >= 1
        }),
{
    let col_marker = build_col_marker();
    let td_close = build_td_close();

    // column hints: every header cell, left to right
    let mut column_hints: Vec<Vec<usize>> = Vec::new();
    let content_len = content.len();
    let mut pos: usize = 0;
    let mut cols_done = false;
    proof {
        assert(hints_view(column_hints@) =~= Seq::<Seq<nat>>::empty());
    }
    while !cols_done
        invariant
            content_len == content@.len(),
            pos <= content@.len(),
            col_marker@ == col_marker_bytes(),
            td_close@ == td_close_bytes(),
            spec_column_cells(content@, 0) == prepend_cells(
                hints_view(column_hints@),
                spec_column_cells(content@, pos as int),
            ),
            cols_done ==> spec_column_cells(content@, pos as int) == Some(
                Seq::<Seq<nat>>::empty(),
            ),
        decreases content@.len() + 1 - pos + (if cols_done {
            0int
        } else {
            1int
        }),
    {
        let open_at = match find_from(content, &col_marker, pos) {
            Some(a) => a,
            None => {
                cols_done = true;
                continue ;
            },
        };
        proof {
            assert(open_at + col_marker@.len() <= content@.len());
        }
        let cell_start = open_at + 28;
        let cell_end = match find_from(content, &td_close, cell_start) {
            Some(a) => a,
            None => {
                cols_done = true;
                continue ;
            },
        };
        proof {
            assert(cell_end + td_close@.len() <= content@.len());
        }
        match collect_span_numbers(content, cell_start, cell_end) {
            Some(numbers) => {
                let ghost hints_prev = column_hints@;
                let ghost nums_view = nats_of(numbers@);
                column_hints.push(numbers);
                proof {
                    assert(spec_column_cells(content@, pos as int) == prepend_cells(
                        seq![nums_view],
                        spec_column_cells(content@, cell_end + 5),
                    ));
                    assert(hints_view(column_hints@) =~= hints_view(hints_prev) + seq![
                        nums_view,
                    ]);
                    match spec_column_cells(content@, cell_end + 5) {
                        None => {
                        },
                        Some(rest) => {
                            assert(hints_view(hints_prev) + (seq![nums_view] + rest) =~= (
                            hints_view(hints_prev) + seq![nums_view]) + rest);
                        },
                    }
                }
                pos = cell_end + 5;
            },
            None => {
                proof {
                    assert(spec_column_cells(content@, pos as int) is None);
                    assert(spec_column_cells(content@, 0) is None);
                    assert(spec_parse_html(content@) is None);
                }
                return Err("Failed to parse HTML table");
            },
        }
    }
    proof {
        assert(hints_view(column_hints@) + Seq::<Seq<nat>>::empty() =~= hints_view(
            column_hints@,
        ));
        assert(spec_column_cells(content@, 0) == Some(hints_view(column_hints@)));
    }

    // row hints: the first decorated cell of each body row
    let tbody_open = build_tbody_open();
    let tbody_close = build_tbody_close();
    let tr_open = build_tr_open();
    let div_open = build_div_open();
    let div_close = build_div_close();
    let mut row_hints: Vec<Vec<usize>> = Vec::new();
    let body_start = match find_from(content, &tbody_open, 0) {
        Some(a) => a,
        None => {
            proof {
                assert(spec_parse_html(content@) is None);
            }
            return Err("Failed to parse HTML table");
        },
    };
    let body_end = match find_from(content, &tbody_close, body_start) {
        Some(a) => a,
        None => {
            proof {
                assert(spec_parse_html(content@) is None);
            }
            return Err("Failed to parse HTML table");
        },
    };
    let mut pos2 = body_start;
    let mut rows_done = false;
    proof {
        assert(hints_view(row_hints@) =~= Seq::<Seq<nat>>::empty());
    }
    while !rows_done
        invariant
            content_len == content@.len(),
            pos2 <= content@.len(),
            tr_open@ == tr_open_bytes(),
            div_open@ == div_open_bytes(),
            div_close@ == div_close_bytes(),
            body_end <= content@.len(),
            spec_column_cells(content@, 0) == Some(hints_view(column_hints@)),
            first_match(content@, tbody_open_bytes(), 0) == Some(body_start as int),
            first_match(content@, tbody_close_bytes(), body_start as int) == Some(
                body_end as int,
            ),
            spec_row_cells(content@, body_start as int, body_end as int) == prepend_cells(
                hints_view(row_hints@),
                spec_row_cells(content@, pos2 as int, body_end as int),
            ),
            rows_done ==> spec_row_cells(content@, pos2 as int, body_end as int) == Some(
                Seq::<Seq<nat>>::empty(),
            ),
        decreases content@.len() + 1 - pos2 + (if rows_done {
            0int
        } else {
            1int
        }),
    {
        let tr_at = match find_from(content, &tr_open, pos2) {
            Some(a) => a,
            None => {
                rows_done = true;
                continue ;
            },
        };
        if tr_at >= body_end {
            rows_done = true;
            continue ;
        }
        let div_at = match find_from(content, &div_open, tr_at) {
            Some(a) => a,
            None => {
                rows_done = true;
                continue ;
            },
        };
        if div_at >= body_end {
            rows_done = true;
            continue ;
        }
        proof {
            assert(div_at + div_open@.len() <= content@.len());
        }
        let div_start = div_at + 5;
        let div_end = match find_from(content, &div_close, div_start) {
            Some(a) => a,
            None => {
                rows_done = true;
                continue ;
            },
        };
        proof {
            assert(div_end + div_close@.len() <= content@.len());
        }
        match collect_span_numbers(content, div_start, div_end) {
            Some(numbers) => {
                let ghost hints_prev = row_hints@;
                let ghost nums_view = nats_of(numbers@);
                proof {
                    assert(spec_row_cells(content@, pos2 as int, body_end as int)
                        == prepend_cells(
                        if nums_view.len() > 0 {
                            seq![nums_view]
                        } else {
                            Seq::<Seq<nat>>::empty()
                        },
                        spec_row_cells(content@, div_end + 6, body_end as int),
                    ));
                }
                if numbers.len() > 0 {
                    row_hints.push(numbers);
                    proof {
                        assert(nums_view.len() > 0);
                        assert(hints_view(row_hints@) =~= hints_view(hints_prev) + seq![
                            nums_view,
                        ]);
                        match spec_row_cells(content@, div_end + 6, body_end as int) {
                            None => {
                            },
                            Some(rest) => {
                                assert(hints_view(hints_prev) + (seq![nums_view] + rest) =~= (
                                hints_view(hints_prev) + seq![nums_view]) + rest);
                            },
                        }
                    }
                } else {
                    proof {
                        assert(nums_view.len() == 0);
                        match spec_row_cells(content@, div_end + 6, body_end as int) {
                            None => {
                            },
                            Some(rest) => {
                                assert(Seq::<Seq<nat>>::empty() + rest =~= rest);
                            },
                        }
                    }
                }
                pos2 = div_end + 6;
            },
            None => {
                proof {
                    assert(first_match(content@, tr_open_bytes(), pos2 as int) == Some(
                        tr_at as int,
                    ));
                    assert(tr_at < body_end && tr_at >= pos2);
                    assert(first_match(content@, div_open_bytes(), tr_at as int) == Some(
                        div_at as int,
                    ));
                    assert(div_at < body_end && div_at >= tr_at);
                    assert(div_start == div_at + 5 && div_start <= content@.len());
                    assert(first_match(content@, div_close_bytes(), div_start as int) == Some(
                        div_end as int,
                    ));
                    assert(div_end + 6 > pos2 && div_end + 6 <= content@.len() + 1);
                    assert(spec_span_values(content@, div_start as int, div_end as int) is None);
                    assert(spec_row_cells(content@, pos2 as int, body_end as int) is None);
                    assert(spec_row_cells(content@, body_start as int, body_end as int) is None);
                    assert(spec_parse_html(content@) is None);
                }
                return Err("Failed to parse HTML table");
            },
        }
    }
    proof {
        assert(hints_view(row_hints@) + Seq::<Seq<nat>>::empty() =~= hints_view(row_hints@));
        assert(spec_row_cells(content@, body_start as int, body_end as int) == Some(
            hints_view(row_hints@),
        ));
    }

    if row_hints.len() > 0 && column_hints.len() > 0 {
        let rows = row_hints.len();
        let columns = column_hints.len();
        proof {
            assert(hints_view(row_hints@).len() == row_hints@.len());
            assert(hints_view(column_hints@).len() == column_hints@.len());
            assert(spec_parse_html(content@) == Some(
                (hints_view(row_hints@), hints_view(column_hints@)),
            ));
        }
        Ok(
            SolverParseResult {
                board_size: Vec2 { row: rows, column: columns },
                row_hints,
                column_hints,
            },
        )
    } else {
        proof {
            assert(hints_view(row_hints@).len() == row_hints@.len());
            assert(hints_view(column_hints@).len() == column_hints@.len());
            assert(spec_parse_html(content@) is None);
        }
        Err("Failed to parse HTML table")
    }
}

/// Remembers which file to read; the host reads it and hands the bytes to
/// `parse_puzzle_text`.
pub struct FileSolverParser {
    pub file_path: String,
}

impl FileSolverParser {
    pub fn new(file_path: String) -> (r: FileSolverParser)
        ensures
            r.file_path == file_path,
    {
        FileSolverParser { file_path }
    }
}

/// Holds the bytes of an HTML table to parse.
pub struct HtmlTableSolverParser {
    html_table: Vec<u8>,
}

impl HtmlTableSolverParser {
    pub closed spec fn table(&self) -> Seq<u8> {
        self.html_table@
    }

    pub fn new(html_table: Vec<u8>) -> (r: HtmlTableSolverParser)
        ensures
            r.table() == html_table@,
    {
        HtmlTableSolverParser { html_table }
    }

    pub fn parse(&self) -> (r: Result<SolverParseResult, &'static str>)
        ensures
            r is Ok <==> spec_parse_html(self.table()) is Some,
            r matches Ok(res) ==> ({
                let p = spec_parse_html(self.table())->Some_0;
                &&& hints_view(res.row_hints@) == p.0
                &&& hints_view(res.column_hints@) == p.1
                &&& res.board_size.row == p.0.len()
                &&& res.board_size.column == p.1.len()
                &&& res.consistent()
            }),
    {
        parse_html_table(&self.html_table)
    }
}

} // verus!
