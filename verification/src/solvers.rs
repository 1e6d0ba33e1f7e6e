//! Solving strategies. Each strategy fills blank cells through the
//! board's mutation API, so givens are never overwritten, and reports
//! success exactly when the board passes its validity check afterwards.

use crate::board::contains_char;
use crate::board::digit_chars;
use crate::board::digits;
use crate::board::is_digit;
use crate::board::lemma_board_ext_equal;
use crate::board::lemma_digits;
use crate::board::lemma_legal_write_keeps_no_conflicts;
use crate::board::lemma_with_cell;
use crate::board::Board;
use vstd::prelude::*;

verus! {

/// Single-pass constraint strategy: visits every cell once in row-major
/// order and, for each blank cell, writes every digit that is absent
/// from the row, column and box snapshots taken on arrival, so the last
/// such digit wins. This unconditional write inside the candidate scan
/// is kept deliberately: it is the strategy's defining behaviour, even
/// though it may pick an arbitrary member of an ambiguous candidate set.
/// Its whole effect is pinned by `sweep_upto`: the final grid is a
/// function of the input grid alone.
pub struct PrimitiveSolver;

/// Greedy least-remaining-values strategy: repeatedly fills the blank
/// cell with the fewest legal candidates (row-major scan order breaking
/// ties), taking the smallest such digit, and recomputing every
/// candidate set from scratch after each assignment, until no blank
/// cell has any candidate left. No backtracking: a dead end simply
/// stops the loop. Its whole effect is pinned by `lrv_run`: the final
/// grid is a function of the input grid alone.
pub struct LeastoptionsFirstSolver;

/// The capability a solver offers: `solve` mutates the board through
/// its update API alone, so original givens survive, and returns true
/// exactly when the board is valid when it returns.
pub trait SolveSudoku {
    fn solve(&self, board: &mut Board) -> (solved: bool)
        requires
            old(board).wf(),
        ensures
            final(board).wf(),
            forall|r: int, c: int|
                0 <= r < 9 && 0 <= c < 9 ==> #[trigger] final(board).orig_at(r, c) == old(
                    board,
                ).orig_at(r, c),
            solved == final(board).valid_spec(),
    ;
}

/// A digit may go into a cell when it appears in none of the cell's
/// three peer groups.
pub open spec fn legal_in(d: char, row: Seq<char>, col: Seq<char>, bx: Seq<char>) -> bool {
    !row.contains(d) && !col.contains(d) && !bx.contains(d)
}

/// The legality test as a predicate over digits, for filtering.
pub open spec fn legal_pred(row: Seq<char>, col: Seq<char>, bx: Seq<char>) -> spec_fn(char) -> bool {
    |d: char| legal_in(d, row, col, bx)
}

/// The candidate set of a cell: the digits, in ascending order, that
/// its three peer groups do not yet contain.
pub open spec fn candidates(row: Seq<char>, col: Seq<char>, bx: Seq<char>) -> Seq<char> {
    digits().filter(legal_pred(row, col, bx))
}

/// True when the digit is absent from all three peer groups.
fn is_safe(row: &[char; 9], col: &[char; 9], grid: &[char; 9], num: char) -> (safe: bool)
    ensures
        safe == legal_in(num, row@, col@, grid@),
{
    !contains_char(row, num) && !contains_char(col, num) && !contains_char(grid, num)
}

/// One blank cell's current legal-value set, recomputed from scratch
/// whenever the board changes and discarded after one assignment.
#[derive(Debug)]
struct AllowedVal {
    row: usize,
    col: usize,
    val: Vec<char>,
}

/// Collects the digits legal against the three peer-group snapshots, in
/// ascending digit order.
fn allowed_vals(arow: &[char; 9], col: &[char; 9], grid: &[char; 9]) -> (vals: Vec<char>)
    ensures
        vals@ == candidates(arow@, col@, grid@),
{
    let digs = digit_chars();
    let mut vals: Vec<char> = Vec::new();
    for k in 0..9usize
        invariant
            digs@ == digits(),
            vals@ == digits().take(k as int).filter(legal_pred(arow@, col@, grid@)),
    {
        let num = digs[k];
        proof {
            broadcast use vstd::prelude::Seq::lemma_filter_push;

            assert(digits().take(k as int + 1) =~= digits().take(k as int).push(
                digits()[k as int],
            ));
        }
        if is_safe(arow, col, grid, num) {
            vals.push(num);
        }
    }
    proof {
        assert(digits().take(9) =~= digits());
    }
    vals
}

/// The number of blank cells among the first `n` cells in row-major
/// order; the solvers' termination measure.
pub open spec fn blanks_upto(b: Board, n: int) -> nat
    decreases n,
{
    if n <= 0 {
        0
    } else {
        blanks_upto(b, n - 1) + (if b.at((n - 1) / 9, (n - 1) % 9) == '.' {
            1nat
        } else {
            0nat
        })
    }
}

/// The number of blank cells on the whole board.
pub open spec fn num_blanks(b: Board) -> nat {
    blanks_upto(b, 81)
}

/// Filling one blank cell lowers the blank count of every prefix that
/// covers the cell, and leaves the other prefixes unchanged.
proof fn lemma_blanks_update(b1: Board, b2: Board, row: int, col: int, n: int)
    requires
        0 <= row < 9,
        0 <= col < 9,
        forall|r: int, c: int|
            0 <= r < 9 && 0 <= c < 9 && !(r == row && c == col) ==> #[trigger] b2.at(r, c)
                == b1.at(r, c),
        b1.at(row, col) == '.',
        b2.at(row, col) != '.',
        0 <= n <= 81,
    ensures
        blanks_upto(b2, n) == blanks_upto(b1, n) - (if row * 9 + col < n {
            1int
        } else {
            0int
        }),
    decreases n,
{
    if n > 0 {
        lemma_blanks_update(b1, b2, row, col, n - 1);
        let k = n - 1;
        if k == row * 9 + col {
            assert(k / 9 == row && k % 9 == col) by (nonlinear_arith)
                requires
                    0 <= row < 9,
                    0 <= col < 9,
                    k == row * 9 + col,
            ;
        } else {
            if k / 9 == row && k % 9 == col {
                vstd::arithmetic::div_mod::lemma_fundamental_div_mod(k, 9);
                assert(false);
            }
        }
    }
}

/// The candidate set of the cell at `(r, c)` against the current board.
pub open spec fn cell_cands(b: Board, r: int, c: int) -> Seq<char> {
    candidates(b.row_seq(r), b.col_seq(c), b.box_seq(r / 3, c / 3))
}

/// The possibility list over the first `n` cells in row-major order:
/// one entry `(row, col, candidates)` for each blank cell whose
/// candidate set is non-empty.
pub open spec fn poss_upto(b: Board, n: int) -> Seq<(int, int, Seq<char>)>
    decreases n,
{
    if n <= 0 {
        Seq::empty()
    } else {
        let r = (n - 1) / 9;
        let c = (n - 1) % 9;
        let prev = poss_upto(b, n - 1);
        if b.at(r, c) == '.' && cell_cands(b, r, c).len() > 0 {
            prev.push((r, c, cell_cands(b, r, c)))
        } else {
            prev
        }
    }
}

/// Each possibility entry names an in-range blank cell and carries that
/// cell's non-empty candidate set.
proof fn lemma_poss_entries(b: Board, n: int)
    requires
        0 <= n <= 81,
    ensures
        forall|t: int|
            0 <= t < poss_upto(b, n).len() ==> {
                let e = #[trigger] poss_upto(b, n)[t];
                &&& 0 <= e.0 < 9
                &&& 0 <= e.1 < 9
                &&& b.at(e.0, e.1) == '.'
                &&& e.2 == cell_cands(b, e.0, e.1)
                &&& e.2.len() > 0
            },
    decreases n,
{
    if n > 0 {
        lemma_poss_entries(b, n - 1);
        let r = (n - 1) / 9;
        let c = (n - 1) % 9;
        assert(0 <= r < 9 && 0 <= c < 9);
        let prev = poss_upto(b, n - 1);
        assert forall|t: int|
            0 <= t < poss_upto(b, n).len() implies {
            let e = #[trigger] poss_upto(b, n)[t];
            &&& 0 <= e.0 < 9
            &&& 0 <= e.1 < 9
            &&& b.at(e.0, e.1) == '.'
            &&& e.2 == cell_cands(b, e.0, e.1)
            &&& e.2.len() > 0
        } by {
            if t < prev.len() {
                assert(poss_upto(b, n)[t] == prev[t]);
            } else {
                assert(poss_upto(b, n)[t] == (r, c, cell_cands(b, r, c)));
            }
        }
    }
}

/// One visit of the single-pass sweep, at flat row-major position `k`:
/// a blank cell with at least one candidate against the visit-time
/// snapshots receives the last candidate examined (the largest), the
/// unconditional-write behaviour this strategy preserves; any other
/// cell is left alone.
pub open spec fn sweep_cell(b: Board, k: int) -> Board {
    let r = k / 9;
    let c = k % 9;
    if b.at(r, c) == '.' && cell_cands(b, r, c).len() > 0 {
        b.with_cell(r, c, cell_cands(b, r, c).last())
    } else {
        b
    }
}

/// The single-pass sweep after visiting the first `n` cells in
/// row-major order: the whole strategy is this fold at `n == 81`.
pub open spec fn sweep_upto(b: Board, n: int) -> Board
    decreases n,
{
    if n <= 0 {
        b
    } else {
        sweep_cell(sweep_upto(b, n - 1), n - 1)
    }
}

/// The sweep keeps the original grid and every already-filled cell, and
/// whatever it writes into a blank cell is a digit.
proof fn lemma_sweep_props(b: Board, n: int)
    requires
        0 <= n <= 81,
    ensures
        forall|r: int, c: int|
            0 <= r < 9 && 0 <= c < 9 ==> #[trigger] sweep_upto(b, n).orig_at(r, c) == b.orig_at(
                r,
                c,
            ),
        forall|r: int, c: int|
            0 <= r < 9 && 0 <= c < 9 && b.at(r, c) != '.' ==> #[trigger] sweep_upto(b, n).at(r, c)
                == b.at(r, c),
        forall|r: int, c: int|
            0 <= r < 9 && 0 <= c < 9 && b.at(r, c) == '.' && sweep_upto(b, n).at(r, c) != '.'
                ==> is_digit(#[trigger] sweep_upto(b, n).at(r, c)),
    decreases n,
{
    if n > 0 {
        lemma_sweep_props(b, n - 1);
        let s = sweep_upto(b, n - 1);
        let r = (n - 1) / 9;
        let c = (n - 1) % 9;
        assert(0 <= r < 9 && 0 <= c < 9);
        if s.at(r, c) == '.' && cell_cands(s, r, c).len() > 0 {
            let cands = cell_cands(s, r, c);
            let v = cands.last();
            lemma_candidate_is_digit(
                s.row_seq(r),
                s.col_seq(c),
                s.box_seq(r / 3, c / 3),
                cands.len() - 1,
            );
            lemma_with_cell(s, r, c, v);
        }
    }
}

/// Every member of a candidate set is one of the nine digits, the
/// candidate set being a filter of the digit sequence.
proof fn lemma_candidate_is_digit(row: Seq<char>, col: Seq<char>, bx: Seq<char>, i: int)
    requires
        0 <= i < candidates(row, col, bx).len(),
    ensures
        is_digit(candidates(row, col, bx)[i]),
{
    broadcast use vstd::prelude::Seq::lemma_filter_contains_rev;

    lemma_digits();
    let cands = candidates(row, col, bx);
    assert(cands.contains(cands[i]));
    assert(digits().contains(cands[i]));
    let t = choose|t: int| 0 <= t < digits().len() && digits()[t] == cands[i];
    assert(is_digit(digits()[t]));
}

/// Mid-visit state of the single-pass sweep at one blank cell: with
/// `pc` the candidates found among the digits scanned so far, the cell
/// holds the last of them (or is untouched when there are none), and
/// every other cell still reads as at the visit.
spec fn mid_visit(now: Board, cur: Board, r: int, c: int, pc: Seq<char>) -> bool {
    &&& pc.len() == 0 ==> forall|r2: int, c2: int|
        0 <= r2 < 9 && 0 <= c2 < 9 ==> #[trigger] now.at(r2, c2) == cur.at(r2, c2)
    &&& pc.len() > 0 ==> now.at(r, c) == pc.last() && forall|r2: int, c2: int|
        0 <= r2 < 9 && 0 <= c2 < 9 && !(r2 == r && c2 == c) ==> #[trigger] now.at(r2, c2) == cur.at(
            r2,
            c2,
        )
}

/// An empty possibility list over a prefix means no cell of the prefix
/// is blank with a non-empty candidate set.
proof fn lemma_poss_covers(b: Board, n: int)
    requires
        0 <= n <= 81,
    ensures
        forall|r: int, c: int|
            0 <= r < 9 && 0 <= c < 9 && r * 9 + c < n && b.at(r, c) == '.' && #[trigger] cell_cands(
                b,
                r,
                c,
            ).len() > 0 ==> poss_upto(b, n).len() > 0,
    decreases n,
{
    if n > 0 {
        lemma_poss_covers(b, n - 1);
        assert forall|r: int, c: int|
            0 <= r < 9 && 0 <= c < 9 && r * 9 + c < n && b.at(r, c) == '.' && #[trigger] cell_cands(
            b,
            r,
            c,
        ).len() > 0 implies poss_upto(b, n).len() > 0 by {
            if r * 9 + c == n - 1 {
                assert((n - 1) / 9 == r && (n - 1) % 9 == c) by (nonlinear_arith)
                    requires
                        0 <= r < 9,
                        0 <= c < 9,
                        n - 1 == r * 9 + c,
                ;
            }
        }
    }
}

/// The index, among the first `n` possibility entries, of the first
/// entry whose candidate set is smallest: the entry a stable ascending
/// sort by candidate count would put in front.
pub open spec fn first_min_upto(ps: Seq<(int, int, Seq<char>)>, n: int) -> int
    decreases n,
{
    if n <= 1 {
        0
    } else {
        let prev = first_min_upto(ps, n - 1);
        if ps[n - 1].2.len() < ps[prev].2.len() {
            n - 1
        } else {
            prev
        }
    }
}

/// The first-minimum index is in range, minimal, and strictly beaten by
/// every entry before it.
proof fn lemma_first_min_props(ps: Seq<(int, int, Seq<char>)>, n: int)
    requires
        0 < n <= ps.len(),
    ensures
        0 <= first_min_upto(ps, n) < n,
        forall|t: int|
            0 <= t < n ==> ps[first_min_upto(ps, n)].2.len() <= #[trigger] ps[t].2.len(),
        forall|t: int|
            0 <= t < first_min_upto(ps, n) ==> #[trigger] ps[t].2.len() > ps[first_min_upto(
                ps,
                n,
            )].2.len(),
    decreases n,
{
    if n > 1 {
        lemma_first_min_props(ps, n - 1);
    }
}

/// One iteration of the greedy strategy: the possibility list is
/// recomputed from scratch, its first fewest-candidates entry receives
/// its smallest candidate, and a board without possibilities is left
/// alone.
pub open spec fn lrv_step(b: Board) -> Board {
    let ps = poss_upto(b, 81);
    if ps.len() == 0 {
        b
    } else {
        let e = ps[first_min_upto(ps, ps.len() as int)];
        b.with_cell(e.0, e.1, e.2[0])
    }
}

/// The greedy strategy run to exhaustion. The fuel bounds the number of
/// assignments; every step fills one blank cell, so the board's blank
/// count is fuel enough to reach the fixpoint with no possibility left.
pub open spec fn lrv_run(b: Board, fuel: nat) -> Board
    decreases fuel,
{
    if fuel == 0 || poss_upto(b, 81).len() == 0 {
        b
    } else {
        lrv_run(lrv_step(b), (fuel - 1) as nat)
    }
}

/// A blank cell inside the counted prefix makes the blank count
/// positive.
proof fn lemma_blanks_pos(b: Board, row: int, col: int, n: int)
    requires
        0 <= row < 9,
        0 <= col < 9,
        b.at(row, col) == '.',
        row * 9 + col < n,
        n <= 81,
    ensures
        blanks_upto(b, n) > 0,
    decreases n,
{
    if n > 0 {
        let k = n - 1;
        if k == row * 9 + col {
            assert(k / 9 == row && k % 9 == col) by (nonlinear_arith)
                requires
                    0 <= row < 9,
                    0 <= col < 9,
                    k == row * 9 + col,
            ;
        } else {
            lemma_blanks_pos(b, row, col, n - 1);
        }
    }
}

/// An entry of `AllowedVal` agrees with a spec-level possibility entry.
spec fn av_matches(a: AllowedVal, e: (int, int, Seq<char>)) -> bool {
    a.row as int == e.0 && a.col as int == e.1 && a.val@ == e.2
}

/// Scans the board in row-major order and collects, for every blank
/// cell with at least one legal digit, that cell and its candidate set.
fn get_all_possibilities(board: &Board) -> (poss: Vec<AllowedVal>)
    ensures
        poss@.len() == poss_upto(*board, 81).len(),
        forall|t: int| 0 <= t < poss@.len() ==> av_matches(#[trigger] poss@[t], poss_upto(*board, 81)[t]),
{
    let mut poss: Vec<AllowedVal> = Vec::new();
    for k in 0..81usize
        invariant
            poss@.len() == poss_upto(*board, k as int).len(),
            forall|t: int|
                0 <= t < poss@.len() ==> av_matches(
                    #[trigger] poss@[t],
                    poss_upto(*board, k as int)[t],
                ),
    {
        let row_idx = k / 9;
        let col_idx = k % 9;
        if board.get(row_idx, col_idx) == '.' {
            let (row, col, grid) = board.get_row_col_grid(row_idx, col_idx);
            let vals = allowed_vals(&row, &col, &grid);
            if vals.len() > 0 {
                poss.push(AllowedVal { row: row_idx, col: col_idx, val: vals });
            }
        }
    }
    poss
}

/// The index of the first entry whose candidate set is smallest: the
/// entry a stable ascending sort by candidate count would put first.
fn pick_least(poss: &Vec<AllowedVal>) -> (least: usize)
    requires
        poss@.len() > 0,
    ensures
        least < poss@.len(),
        forall|t: int| 0 <= t < poss@.len() ==> poss@[least as int].val@.len() <= #[trigger] poss@[t].val@.len(),
        forall|t: int| 0 <= t < least ==> #[trigger] poss@[t].val@.len() > poss@[least as int].val@.len(),
{
    let mut least: usize = 0;
    for j in 1..poss.len()
        invariant
            least < j <= poss@.len(),
            forall|t: int| 0 <= t < j ==> poss@[least as int].val@.len() <= #[trigger] poss@[t].val@.len(),
            forall|t: int| 0 <= t < least ==> #[trigger] poss@[t].val@.len() > poss@[least as int].val@.len(),
    {
        if poss[j].val.len() < poss[least].val.len() {
            least = j;
        }
    }
    least
}

impl SolveSudoku for PrimitiveSolver {
    fn solve(&self, board: &mut Board) -> (solved: bool)
        ensures
            *final(board) == sweep_upto(*old(board), 81),
            forall|r: int, c: int|
                0 <= r < 9 && 0 <= c < 9 && old(board).at(r, c) != '.' ==> #[trigger] final(board).at(r, c) == old(board).at(r, c),
            forall|r: int, c: int|
                0 <= r < 9 && 0 <= c < 9 && old(board).at(r, c) == '.' && final(board).at(r, c) != '.' ==> is_digit(#[trigger] final(board).at(r, c)),
    {
        let ghost b0: Board = *old(board);
        for row_idx in 0..9usize
            invariant
                board.wf(),
                *board == sweep_upto(b0, 9 * row_idx as int),
        {
            for col_idx in 0..9usize
                invariant
                    row_idx < 9,
                    board.wf(),
                    *board == sweep_upto(b0, 9 * (row_idx as int) + col_idx as int),
            {
                let ghost n: int = 9 * (row_idx as int) + col_idx as int;
                let ghost cur: Board = *board;
                proof {
                    assert(n / 9 == row_idx as int && n % 9 == col_idx as int) by (nonlinear_arith)
                        requires
                            row_idx < 9,
                            col_idx < 9,
                            n == 9 * (row_idx as int) + col_idx as int,
                    ;
                }
                let cell_now = board.get(row_idx, col_idx);
                if cell_now == '.' {
                    let (row, col, grid) = board.get_row_col_grid(row_idx, col_idx);
                    let digs = digit_chars();
                    for k in 0..9usize
                        invariant
                            row_idx < 9,
                            col_idx < 9,
                            digs@ == digits(),
                            board.wf(),
                            row@ == cur.row_seq(row_idx as int),
                            col@ == cur.col_seq(col_idx as int),
                            grid@ == cur.box_seq(row_idx as int / 3, col_idx as int / 3),
                            cur.at(row_idx as int, col_idx as int) == '.',
                            board.orig_at(row_idx as int, col_idx as int) == '.',
                            forall|r: int, c: int|
                                0 <= r < 9 && 0 <= c < 9 ==> #[trigger] board.orig_at(r, c)
                                    == cur.orig_at(r, c),
                            mid_visit(
                                *board,
                                cur,
                                row_idx as int,
                                col_idx as int,
                                digits().take(k as int).filter(legal_pred(row@, col@, grid@)),
                            ),
                    {
                        let num = digs[k];
                        proof {
                            broadcast use vstd::prelude::Seq::lemma_filter_push;

                            lemma_digits();
                            assert(is_digit(digits()[k as int]));
                            assert(digits().take(k as int + 1) =~= digits().take(k as int).push(
                                digits()[k as int],
                            ));
                        }
                        if is_safe(&row, &col, &grid, num) {
                            board.update_val(row_idx, col_idx, num);
                        }
                    }
                    proof {
                        let r = row_idx as int;
                        let c = col_idx as int;
                        assert(digits().take(9) =~= digits());
                        let cands = cell_cands(cur, r, c);
                        assert(cands == digits().filter(legal_pred(row@, col@, grid@)));
                        if cands.len() == 0 {
                            lemma_board_ext_equal(*board, cur);
                            assert(sweep_cell(cur, n) == cur);
                        } else {
                            lemma_with_cell(cur, r, c, cands.last());
                            lemma_board_ext_equal(*board, cur.with_cell(r, c, cands.last()));
                            assert(sweep_cell(cur, n) == cur.with_cell(r, c, cands.last()));
                        }
                        assert(*board == sweep_upto(b0, n + 1));
                    }
                } else {
                    proof {
                        assert(cur.at(n / 9, n % 9) != '.');
                        assert(sweep_cell(cur, n) == cur);
                        assert(*board == sweep_upto(b0, n + 1));
                    }
                }
            }
        }
        proof {
            lemma_sweep_props(b0, 81);
        }
        board.is_valid()
    }
}

impl SolveSudoku for LeastoptionsFirstSolver {
    fn solve(&self, board: &mut Board) -> (solved: bool)
        ensures
            *final(board) == lrv_run(*old(board), num_blanks(*old(board))),
            forall|r: int, c: int|
                0 <= r < 9 && 0 <= c < 9 && old(board).at(r, c) != '.' ==> #[trigger] final(board).at(r, c) == old(board).at(r, c),
            forall|r: int, c: int|
                0 <= r < 9 && 0 <= c < 9 && old(board).at(r, c) == '.' && final(board).at(r, c) != '.' ==> is_digit(#[trigger] final(board).at(r, c)),
            forall|r: int, c: int|
                0 <= r < 9 && 0 <= c < 9 && final(board).at(r, c) == '.' ==> #[trigger] cell_cands(*final(board), r, c).len() == 0,
            old(board).no_conflicts() ==> final(board).no_conflicts(),
    {
        let ghost b0: Board = *old(board);
        let mut possibilities = get_all_possibilities(board);
        while possibilities.len() > 0
            invariant
                board.wf(),
                forall|r: int, c: int|
                    0 <= r < 9 && 0 <= c < 9 ==> #[trigger] board.orig_at(r, c) == b0.orig_at(
                        r,
                        c,
                    ),
                forall|r: int, c: int|
                    0 <= r < 9 && 0 <= c < 9 && b0.at(r, c) != '.' ==> #[trigger] board.at(r, c)
                        == b0.at(r, c),
                forall|r: int, c: int|
                    0 <= r < 9 && 0 <= c < 9 && b0.at(r, c) == '.' && board.at(r, c) != '.'
                        ==> is_digit(#[trigger] board.at(r, c)),
                b0.no_conflicts() ==> board.no_conflicts(),
                lrv_run(b0, num_blanks(b0)) == lrv_run(*board, num_blanks(*board)),
                possibilities@.len() == poss_upto(*board, 81).len(),
                forall|t: int|
                    0 <= t < possibilities@.len() ==> av_matches(
                        #[trigger] possibilities@[t],
                        poss_upto(*board, 81)[t],
                    ),
            decreases num_blanks(*board),
        {
            let least = pick_least(&possibilities);
            let ghost before: Board = *board;
            let ghost ps = poss_upto(before, 81);
            let ghost fm = first_min_upto(ps, ps.len() as int);
            proof {
                lemma_poss_entries(before, 81);
                lemma_first_min_props(ps, ps.len() as int);
                assert forall|t: int| 0 <= t < ps.len() implies #[trigger] ps[t].2.len()
                    == possibilities@[t].val@.len() by {
                    assert(av_matches(possibilities@[t], ps[t]));
                }
                if (least as int) < fm {
                    assert(ps[least as int].2.len() > ps[fm].2.len());
                    assert(possibilities@[fm].val@.len() >= possibilities@[least as int].val@.len());
                    assert(false);
                }
                if fm < least as int {
                    assert(possibilities@[fm].val@.len() > possibilities@[least as int].val@.len());
                    assert(ps[least as int].2.len() >= ps[fm].2.len());
                    assert(false);
                }
                assert(least as int == fm);
            }
            let row = possibilities[least].row;
            let col = possibilities[least].col;
            let num = possibilities[least].val[0];
            let ghost e = ps[fm];
            proof {
                broadcast use vstd::prelude::Seq::lemma_filter_pred;

                assert(av_matches(possibilities@[least as int], e));
                assert(e.2 == cell_cands(before, e.0, e.1));
                lemma_candidate_is_digit(
                    before.row_seq(e.0),
                    before.col_seq(e.1),
                    before.box_seq(e.0 / 3, e.1 / 3),
                    0,
                );
                assert(legal_pred(
                    before.row_seq(e.0),
                    before.col_seq(e.1),
                    before.box_seq(e.0 / 3, e.1 / 3),
                )(e.2[0]));
            }
            board.update_val(row, col, num);
            proof {
                lemma_blanks_update(before, *board, row as int, col as int, 81);
                lemma_with_cell(before, e.0, e.1, e.2[0]);
                lemma_board_ext_equal(*board, before.with_cell(e.0, e.1, e.2[0]));
                assert(lrv_step(before) == before.with_cell(e.0, e.1, e.2[0]));
                lemma_blanks_pos(before, e.0, e.1, 81);
                assert(lrv_run(before, num_blanks(before)) == lrv_run(
                    lrv_step(before),
                    (num_blanks(before) - 1) as nat,
                ));
                if b0.no_conflicts() {
                    lemma_legal_write_keeps_no_conflicts(
                        before,
                        *board,
                        e.0,
                        e.1,
                        e.2[0],
                    );
                }
            }
            possibilities = get_all_possibilities(board);
        }
        proof {
            lemma_poss_covers(*board, 81);
            assert forall|r: int, c: int|
                0 <= r < 9 && 0 <= c < 9 && board.at(r, c) == '.' implies #[trigger] cell_cands(
                *board,
                r,
                c,
            ).len() == 0 by {
                assert(r * 9 + c < 81);
            }
            assert(lrv_run(*board, num_blanks(*board)) == *board);
        }
        board.is_valid()
    }
}

} // verus!
