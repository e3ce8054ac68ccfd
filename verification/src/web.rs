//! What the web API computes: the board size encoded in a TPS string,
//! and the per-move result lines the endpoint reports.
//!
//! TPS separates rows with `/` and columns with `,`; `n` adjacent empty
//! columns are merged into `xn`.  The board size is the column count of
//! the first row: one per segment, except that a segment starting with
//! `x` counts as the number parsed after the `x`s (or as one column when
//! nothing parseable follows).

use vstd::prelude::*;
use vstd::string::StringSliceAdditionalSpecFns;
use crate::fixed::UNIT;

verus! {

/// The first position of byte `b` in `bs[from..to]`, or `to`.
pub open spec fn find_in(bs: Seq<u8>, b: u8, from: int, to: int) -> int
    decreases to - from,
{
    if from < 0 || from >= to {
        to
    } else if bs[from] == b {
        from
    } else {
        find_in(bs, b, from + 1, to)
    }
}

/// `find_in` stays within the searched range.
pub proof fn lemma_find_bounds(bs: Seq<u8>, b: u8, from: int, to: int)
    requires
        0 <= from <= to,
    ensures
        from <= find_in(bs, b, from, to) <= to,
    decreases to - from,
{
    if from < to && bs[from] != b {
        lemma_find_bounds(bs, b, from + 1, to);
    }
}

/// All bytes in the range are decimal digits.
pub open spec fn all_digits(bs: Seq<u8>, from: int, to: int) -> bool {
    forall|i: int| from <= i < to ==> 48 <= #[trigger] bs[i] <= 57
}

/// The decimal number the digit range spells.
pub open spec fn digits_value(bs: Seq<u8>, from: int, to: int) -> int
    decreases to - from,
{
    if to <= from {
        0
    } else {
        digits_value(bs, from, to - 1) * 10 + (bs[to - 1] - 48)
    }
}

/// Digit values are never negative.
pub proof fn lemma_digits_nonneg(bs: Seq<u8>, from: int, to: int)
    requires
        all_digits(bs, from, to),
    ensures
        digits_value(bs, from, to) >= 0,
    decreases to - from,
{
    if to > from {
        lemma_digits_nonneg(bs, from, to - 1);
        assert(digits_value(bs, from, to - 1) * 10 >= 0) by (nonlinear_arith)
            requires
                digits_value(bs, from, to - 1) >= 0,
        ;
    }
}

/// Extending a digit string never shrinks its value.
pub proof fn lemma_digits_mono(bs: Seq<u8>, from: int, mid: int, to: int)
    requires
        from <= mid <= to,
        all_digits(bs, from, to),
    ensures
        digits_value(bs, from, mid) <= digits_value(bs, from, to),
    decreases to - mid,
{
    if mid < to {
        lemma_digits_mono(bs, from, mid, to - 1);
        lemma_digits_nonneg(bs, from, to - 1);
        assert(digits_value(bs, from, to - 1) * 10 >= digits_value(bs, from, to - 1))
            by (nonlinear_arith)
            requires
                digits_value(bs, from, to - 1) >= 0,
        ;
    }
}

/// The first position after the leading `x`s.
pub open spec fn skip_x(bs: Seq<u8>, from: int, to: int) -> int
    decreases to - from,
{
    if from < 0 || from >= to {
        to
    } else if bs[from] == 120 {
        skip_x(bs, from + 1, to)
    } else {
        from
    }
}

/// What `str::parse::<usize>` makes of the byte range: an optional `+`,
/// then at least one digit, the value within `usize` range.
pub open spec fn parses_to(bs: Seq<u8>, from: int, to: int) -> Option<int> {
    let dfrom = if from < to && bs[from] == 43 {
        from + 1
    } else {
        from
    };
    if dfrom < to && all_digits(bs, dfrom, to) && digits_value(bs, dfrom, to) <= usize::MAX {
        Some(digits_value(bs, dfrom, to))
    } else {
        None
    }
}

/// How many columns one comma-separated segment stands for: a segment
/// starting with `x` counts as the number after the `x`s when one parses
/// (one column otherwise), and any other segment as one column.
pub open spec fn segment_cols(bs: Seq<u8>, from: int, to: int) -> int {
    if from < to && bs[from] == 120 {
        match parses_to(bs, skip_x(bs, from, to), to) {
            Some(v) => v,
            None => 1,
        }
    } else {
        1
    }
}

/// Segments never count negatively.
pub proof fn lemma_segment_nonneg(bs: Seq<u8>, from: int, to: int)
    ensures
        segment_cols(bs, from, to) >= 0,
{
    if from < to && bs[from] == 120 {
        let d = skip_x(bs, from, to);
        let dfrom = if d < to && bs[d] == 43 {
            d + 1
        } else {
            d
        };
        if dfrom < to && all_digits(bs, dfrom, to) && digits_value(bs, dfrom, to) <= usize::MAX {
            lemma_digits_nonneg(bs, dfrom, to);
        }
    }
}

/// The column count of `bs[from..to]`, a comma-separated row.
pub open spec fn row_cols(bs: Seq<u8>, from: int, to: int) -> int
    decreases to - from,
    via row_cols_dec
{
    let c = find_in(bs, 44, from, to);
    if c >= to || from < 0 {
        segment_cols(bs, from, to)
    } else {
        segment_cols(bs, from, c) + row_cols(bs, c + 1, to)
    }
}

#[via_fn]
proof fn row_cols_dec(bs: Seq<u8>, from: int, to: int) {
    let c = find_in(bs, 44, from, to);
    if !(c >= to || from < 0) {
        lemma_find_bounds(bs, 44, from, to);
    }
}

/// Rows never count negatively.
pub proof fn lemma_row_nonneg(bs: Seq<u8>, from: int, to: int)
    ensures
        row_cols(bs, from, to) >= 0,
    decreases to - from,
{
    let c = find_in(bs, 44, from, to);
    if c >= to || from < 0 {
        lemma_segment_nonneg(bs, from, to);
    } else {
        lemma_find_bounds(bs, 44, from, to);
        lemma_segment_nonneg(bs, from, c);
        lemma_row_nonneg(bs, c + 1, to);
    }
}

/// The board size a TPS string encodes: the column count of its first
/// row (everything before the first `/`).
pub open spec fn spec_tps_size(bs: Seq<u8>) -> int {
    row_cols(bs, 0, find_in(bs, 47, 0, bs.len() as int))
}

/// The first position of `b` in `bs[from..to]`, or `to`.
fn find_byte(bs: &[u8], b: u8, from: usize, to: usize) -> (r: usize)
    requires
        from <= to <= bs@.len(),
    ensures
        r == find_in(bs@, b, from as int, to as int),
        from <= r <= to,
{
    let mut i: usize = from;
    while i < to
        invariant
            from <= i <= to,
            to <= bs@.len(),
            find_in(bs@, b, from as int, to as int) == find_in(bs@, b, i as int, to as int),
        decreases to - i,
    {
        if bs[i] == b {
            return i;
        }
        i = i + 1;
    }
    to
}

/// The number of columns one segment stands for.
fn segment_value(bs: &[u8], from: usize, to: usize) -> (r: usize)
    requires
        from <= to <= bs@.len(),
    ensures
        r == segment_cols(bs@, from as int, to as int),
{
    if from >= to || bs[from] != 120 {
        return 1;
    }
    let mut d: usize = from;
    while d < to && bs[d] == 120
        invariant
            from <= d <= to,
            to <= bs@.len(),
            skip_x(bs@, from as int, to as int) == skip_x(bs@, d as int, to as int),
        decreases to - d,
    {
        d = d + 1;
    }
    proof {
        assert(skip_x(bs@, d as int, to as int) == d as int);
        assert(skip_x(bs@, from as int, to as int) == d as int);
    }
    let dfrom: usize = if d < to && bs[d] == 43 {
        d + 1
    } else {
        d
    };
    if dfrom >= to {
        proof {
            assert(parses_to(bs@, d as int, to as int) is None);
        }
        return 1;
    }
    let ghost gfrom = dfrom as int;
    let ghost gto = to as int;
    let mut val: u128 = 0;
    let mut i: usize = dfrom;
    while i < to
        invariant
            from < to <= bs@.len(),
            bs@[from as int] == 120,
            from <= d <= to,
            skip_x(bs@, from as int, to as int) == d as int,
            dfrom == (if d < to && bs@[d as int] == 43 {
                d + 1
            } else {
                d as int
            }),
            dfrom < to,
            dfrom <= i <= to,
            gfrom == dfrom as int,
            gto == to as int,
            all_digits(bs@, gfrom, i as int),
            val == digits_value(bs@, gfrom, i as int),
            val <= usize::MAX,
        decreases to - i,
    {
        let ch: u8 = bs[i];
        if ch < 48 || ch > 57 {
            proof {
                assert(!all_digits(bs@, gfrom, gto));
                assert(parses_to(bs@, d as int, gto) is None);
            }
            return 1;
        }
        val = val * 10 + ((ch - 48) as u128);
        proof {
            assert(val == digits_value(bs@, gfrom, i + 1));
        }
        if val > usize::MAX as u128 {
            proof {
                if all_digits(bs@, gfrom, gto) {
                    lemma_digits_mono(bs@, gfrom, i + 1, gto);
                }
                assert(parses_to(bs@, d as int, gto) is None);
            }
            return 1;
        }
        i = i + 1;
    }
    proof {
        lemma_digits_nonneg(bs@, gfrom, gto);
        assert(parses_to(bs@, d as int, gto) == Some(digits_value(bs@, gfrom, gto)));
    }
    val as usize
}

/// Determines the board size from a TPS string: TPS separates rows with
/// `/` and columns with `,`, and merges `n` adjacent empty columns into
/// `xn`, so the size is the column count of the first row.
pub fn determine_tps_size(tps: &str) -> (r: usize)
    requires
        find_in(tps.spec_bytes(), 47, 0, tps.spec_bytes().len() as int) < tps.spec_bytes().len(),
        spec_tps_size(tps.spec_bytes()) <= usize::MAX,
    ensures
        r == spec_tps_size(tps.spec_bytes()),
{
    let bytes: &[u8] = tps.as_bytes();
    let n: usize = bytes.len();
    let slash: usize = find_byte(bytes, 47, 0, n);
    let ghost bs = bytes@;
    let mut acc: usize = 0;
    let mut pos: usize = 0;
    loop
        invariant
            pos <= slash,
            slash <= n,
            n == bs.len(),
            bs == bytes@,
            bs == tps.spec_bytes(),
            slash == find_in(bs, 47, 0, bs.len() as int),
            acc + row_cols(bs, pos as int, slash as int) == spec_tps_size(bs),
            spec_tps_size(bs) <= usize::MAX,
            acc <= usize::MAX,
        decreases slash - pos,
    {
        let c: usize = find_byte(bytes, 44, pos, slash);
        let v: usize = segment_value(bytes, pos, c);
        proof {
            lemma_segment_nonneg(bs, pos as int, c as int);
            lemma_row_nonneg(bs, pos as int, slash as int);
            if c < slash {
                lemma_row_nonneg(bs, (c + 1) as int, slash as int);
            } else {
                // find within [pos, slash) and [pos, slash] agree here
                assert(find_in(bs, 44, pos as int, slash as int) == c);
            }
            assert(acc + v <= usize::MAX);
        }
        acc = acc + v;
        if c >= slash {
            return acc;
        }
        pos = c + 1;
    }
}

/// One reported candidate move: its notation and the win percentages the
/// engine gives each side, as whole percents.
#[derive(Debug, Clone)]
pub struct PtnMoveResult {
    /// The move, in portable notation.
    pub ptn: String,
    /// Percent estimate that the side to move wins after it.
    pub white: isize,
    /// The complementary percent estimate.
    pub black: isize,
}

impl PtnMoveResult {
    /// Builds a report line from a move's notation and its win
    /// probability in [0, UNIT].
    pub fn from_probability(ptn: String, winning_probability: u64) -> (r: PtnMoveResult)
        requires
            winning_probability <= UNIT,
        ensures
            r.ptn == ptn,
            r.white == winning_probability as int * 100 / (UNIT as int),
            r.black == (UNIT - winning_probability) as int * 100 / (UNIT as int),
            0 <= r.white <= 100,
            0 <= r.black <= 100,
    {
        let white: u64 = winning_probability * 100 / UNIT;
        let black: u64 = (UNIT - winning_probability) * 100 / UNIT;
        PtnMoveResult { ptn, white: white as isize, black: black as isize }
    }
}

/// The sum of the `white` percentages of a report.
pub open spec fn white_total(ms: Seq<PtnMoveResult>) -> int
    decreases ms.len(),
{
    if ms.len() == 0 {
        0
    } else {
        white_total(ms.drop_last()) + ms.last().white
    }
}

/// The sum of the `black` percentages of a report.
pub open spec fn black_total(ms: Seq<PtnMoveResult>) -> int
    decreases ms.len(),
{
    if ms.len() == 0 {
        0
    } else {
        black_total(ms.drop_last()) + ms.last().black
    }
}

/// The whole report of an analyzed position: the candidate moves with the
/// summed percentages.
#[derive(Debug, Clone)]
pub struct OpeningResult {
    /// Sum of the per-move `black` percentages.
    pub black: isize,
    /// Sum of the per-move `white` percentages.
    pub white: isize,
    /// The per-move lines.
    pub moves: Vec<PtnMoveResult>,
}

impl OpeningResult {
    /// Totals a list of per-move report lines.
    pub fn from_moves(moves: Vec<PtnMoveResult>) -> (r: OpeningResult)
        requires
            moves@.len() <= 1000_000,
            forall|i: int| 0 <= i < moves@.len() ==> 0 <= (#[trigger] moves@[i]).white <= 100,
            forall|i: int| 0 <= i < moves@.len() ==> 0 <= (#[trigger] moves@[i]).black <= 100,
        ensures
            r.white == white_total(moves@),
            r.black == black_total(moves@),
            r.moves == moves,
    {
        let mut white: isize = 0;
        let mut black: isize = 0;
        let mut i: usize = 0;
        while i < moves.len()
            invariant
                0 <= i <= moves@.len(),
                moves@.len() <= 1000_000,
                forall|t: int| 0 <= t < moves@.len() ==> 0 <= (#[trigger] moves@[t]).white <= 100,
                forall|t: int| 0 <= t < moves@.len() ==> 0 <= (#[trigger] moves@[t]).black <= 100,
                white == white_total(moves@.take(i as int)),
                black == black_total(moves@.take(i as int)),
                0 <= white <= i * 100,
                0 <= black <= i * 100,
            decreases moves@.len() - i,
        {
            proof {
                assert(moves@.take(i + 1).drop_last() =~= moves@.take(i as int));
                assert(moves@.take(i + 1).last() == moves@[i as int]);
                assert((i + 1) * 100 == i * 100 + 100) by (nonlinear_arith);
                vstd::arithmetic::mul::lemma_mul_inequality(i as int, 1000_000, 100);
            }
            white = white + moves[i].white;
            black = black + moves[i].black;
            i = i + 1;
        }
        proof {
            assert(moves@.take(moves@.len() as int) =~= moves@);
        }
        OpeningResult { black, white, moves }
    }
}

} // verus!
