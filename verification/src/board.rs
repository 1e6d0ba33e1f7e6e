//! The board: a 9x9 grid of cells, each a digit '1'..'9' or the blank
//! sentinel '.', together with the original (given) grid captured at
//! construction. Cells that are filled in the original grid can never be
//! overwritten through the mutation API.

use vstd::multiset::Multiset;
use vstd::prelude::*;

verus! {

/// True exactly for the nine digit characters a cell may hold.
pub open spec fn is_digit(c: char) -> bool {
    c == '1' || c == '2' || c == '3' || c == '4' || c == '5' || c == '6' || c == '7' || c == '8'
        || c == '9'
}

/// The nine digit characters in ascending order.
pub open spec fn digits() -> Seq<char> {
    seq!['1', '2', '3', '4', '5', '6', '7', '8', '9']
}

/// A nine-cell group (row, column or box) is valid when every digit
/// appears in it; with nine cells this forces each digit to appear
/// exactly once.
pub open spec fn group_valid(g: Seq<char>) -> bool {
    forall|d: char| is_digit(d) ==> g.contains(d)
}

/// A nine-cell group drawn from the digit characters alone, using each
/// digit exactly once.
pub open spec fn is_digit_permutation(g: Seq<char>) -> bool {
    g.len() == 9 && g.to_multiset() == digits().to_multiset()
}

/// A nine-cell group with two equal cells, or with a cell that is no
/// digit (a blank, for instance).
pub open spec fn group_flawed(g: Seq<char>) -> bool {
    (exists|i: int, j: int| 0 <= i < 9 && 0 <= j < 9 && i != j && g[i] == g[j]) || (exists|i: int|
        0 <= i < 9 && !is_digit(#[trigger] g[i]))
}

/// Pigeonhole bound: a multiset holding at least one occurrence of each
/// member of a duplicate-free sequence is at least that long.
proof fn lemma_counts_bound(m: Multiset<char>, ds: Seq<char>)
    requires
        ds.no_duplicates(),
        forall|k: int| 0 <= k < ds.len() ==> m.count(#[trigger] ds[k]) >= 1,
    ensures
        m.len() >= ds.len(),
    decreases ds.len(),
{
    broadcast use vstd::multiset::group_multiset_axioms;

    if ds.len() > 0 {
        let d = ds[0];
        let single = Multiset::<char>::singleton(d);
        assert forall|x: char| single.count(x) <= m.count(x) by {
            if x == d {
            }
        }
        let m2 = m.remove(d);
        assert(m2.len() == m.len() - 1);
        let rest = ds.drop_first();
        assert forall|i: int, j: int|
            0 <= i < rest.len() && 0 <= j < rest.len() && i != j implies rest[i] != rest[j] by {
            assert(rest[i] == ds[i + 1]);
            assert(rest[j] == ds[j + 1]);
        }
        assert forall|k: int| 0 <= k < rest.len() implies m2.count(#[trigger] rest[k]) >= 1 by {
            assert(rest[k] == ds[k + 1]);
            assert(ds[k + 1] != ds[0]);
        }
        lemma_counts_bound(m2, rest);
    }
}

/// A group that is a permutation of the nine digits passes the group
/// check.
pub proof fn lemma_permutation_group_valid(g: Seq<char>)
    requires
        is_digit_permutation(g),
    ensures
        group_valid(g),
{
    broadcast use vstd::seq_lib::group_to_multiset_ensures;

    lemma_digits();
    assert forall|d: char| is_digit(d) implies g.contains(d) by {
        assert(digits().contains(d));
        assert(digits().to_multiset().count(d) > 0);
        assert(g.to_multiset().count(d) > 0);
    }
}

/// A group with a duplicate or a non-digit cell fails the group check:
/// nine cells cannot then cover all nine digits.
pub proof fn lemma_flawed_group_not_valid(g: Seq<char>)
    requires
        g.len() == 9,
        group_flawed(g),
    ensures
        !group_valid(g),
{
    broadcast use vstd::seq_lib::group_to_multiset_ensures;
    broadcast use vstd::multiset::group_multiset_axioms;

    lemma_digits();
    if group_valid(g) {
        let m = g.to_multiset();
        assert(m.len() == 9);
        assert forall|k: int| 0 <= k < 9 implies m.count(#[trigger] digits()[k]) >= 1 by {
            assert(is_digit(digits()[k]));
            assert(g.contains(digits()[k]));
        }
        // Pick a value whose removal still leaves one occurrence of each
        // digit: a non-digit cell, or one copy of a duplicated digit.
        let v: char;
        if exists|i: int| 0 <= i < 9 && !is_digit(#[trigger] g[i]) {
            let i = choose|i: int| 0 <= i < 9 && !is_digit(#[trigger] g[i]);
            v = g[i];
            assert(g.contains(v));
            assert(m.count(v) >= 1);
        } else {
            let (i, j): (int, int) = choose|i: int, j: int|
                0 <= i < 9 && 0 <= j < 9 && i != j && #[trigger] g[i] == #[trigger] g[j];
            v = g[i];
            let g2 = g.remove(j);
            assert(g2.to_multiset() =~= m.remove(v));
            g.remove_ensures(j);
            let i2: int = if i < j {
                i
            } else {
                i - 1
            };
            assert(g2[i2] == v);
            assert(g2.contains(v));
            assert(m.remove(v).count(v) >= 1);
            assert(m.count(v) >= 2);
        }
        let single = Multiset::<char>::singleton(v);
        assert forall|x: char| single.count(x) <= m.count(x) by {
            if x == v {
            }
        }
        let m2 = m.remove(v);
        assert(m2.len() == 8);
        assert forall|k: int| 0 <= k < 9 implies m2.count(#[trigger] digits()[k]) >= 1 by {
            assert(is_digit(digits()[k]));
            if digits()[k] == v {
                assert(m.count(v) >= 2);
            }
        }
        lemma_counts_bound(m2, digits());
        assert(false);
    }
}

#[verifier::ext_equal]
pub struct Board {
    board: [[char; 9]; 9],
    orig_board: [[char; 9]; 9],
}

impl Board {
    /// The board with one cell of the live grid replaced; the original
    /// grid is untouched. This is the spec-level counterpart of a
    /// successful `update_val`.
    pub closed spec fn with_cell(self, r: int, c: int, v: char) -> Board {
        Board {
            board: vstd::array::spec_array_update(
                self.board,
                r,
                vstd::array::spec_array_update(self.board[r], c, v),
            ),
            orig_board: self.orig_board,
        }
    }
}

/// How `with_cell` reads: the named cell holds the new value, every
/// other cell and the whole original grid are unchanged.
pub proof fn lemma_with_cell(b: Board, r: int, c: int, v: char)
    requires
        0 <= r < 9,
        0 <= c < 9,
    ensures
        b.with_cell(r, c, v).at(r, c) == v,
        forall|r2: int, c2: int|
            0 <= r2 < 9 && 0 <= c2 < 9 && !(r2 == r && c2 == c) ==> #[trigger] b.with_cell(
                r,
                c,
                v,
            ).at(r2, c2) == b.at(r2, c2),
        forall|r2: int, c2: int|
            0 <= r2 < 9 && 0 <= c2 < 9 ==> #[trigger] b.with_cell(r, c, v).orig_at(r2, c2)
                == b.orig_at(r2, c2),
{
    broadcast use vstd::array::group_array_axioms;

}

/// Two boards that agree cell by cell, live and original, are the same
/// board.
pub proof fn lemma_board_ext_equal(b1: Board, b2: Board)
    requires
        forall|r: int, c: int|
            0 <= r < 9 && 0 <= c < 9 ==> #[trigger] b1.at(r, c) == b2.at(r, c),
        forall|r: int, c: int|
            0 <= r < 9 && 0 <= c < 9 ==> #[trigger] b1.orig_at(r, c) == b2.orig_at(r, c),
    ensures
        b1 == b2,
{
    broadcast use vstd::array::group_array_axioms;

    assert forall|r: int| 0 <= r < 9 implies #[trigger] b1.board[r] == b2.board[r] by {
        assert forall|c: int| 0 <= c < 9 implies b1.board[r][c] == b2.board[r][c] by {
            assert(b1.at(r, c) == b2.at(r, c));
        }
        assert(b1.board[r] =~= b2.board[r]);
    }
    assert forall|r: int| 0 <= r < 9 implies #[trigger] b1.orig_board[r] == b2.orig_board[r] by {
        assert forall|c: int| 0 <= c < 9 implies b1.orig_board[r][c] == b2.orig_board[r][c] by {
            assert(b1.orig_at(r, c) == b2.orig_at(r, c));
        }
        assert(b1.orig_board[r] =~= b2.orig_board[r]);
    }
    assert(b1.board =~= b2.board);
    assert(b1.orig_board =~= b2.orig_board);
    assert(b1 =~= b2);
}

/// No digit appears twice in the nine-cell group; blanks (or other
/// non-digit cells) may repeat freely.
pub open spec fn group_no_dup(g: Seq<char>) -> bool {
    forall|i: int, j: int|
        #![trigger g[i], g[j]]
        0 <= i < 9 && 0 <= j < 9 && i != j ==> !(is_digit(g[i]) && g[i] == g[j])
}

impl Board {
    /// No row, column or box of the live grid holds the same digit
    /// twice.
    pub open spec fn no_conflicts(self) -> bool {
        &&& forall|i: int| 0 <= i < 9 ==> group_no_dup(#[trigger] self.row_seq(i))
        &&& forall|i: int| 0 <= i < 9 ==> group_no_dup(#[trigger] self.col_seq(i))
        &&& forall|br: int, bc: int|
            0 <= br < 3 && 0 <= bc < 3 ==> group_no_dup(#[trigger] self.box_seq(br, bc))
    }
}

/// Writing into a blank cell a digit absent from the cell's row, column
/// and box keeps the board free of repeated digits.
pub proof fn lemma_legal_write_keeps_no_conflicts(b1: Board, b2: Board, r: int, c: int, v: char)
    requires
        0 <= r < 9,
        0 <= c < 9,
        is_digit(v),
        b1.at(r, c) == '.',
        !b1.row_seq(r).contains(v),
        !b1.col_seq(c).contains(v),
        !b1.box_seq(r / 3, c / 3).contains(v),
        b2.at(r, c) == v,
        forall|r2: int, c2: int|
            0 <= r2 < 9 && 0 <= c2 < 9 && !(r2 == r && c2 == c) ==> #[trigger] b2.at(r2, c2)
                == b1.at(r2, c2),
        b1.no_conflicts(),
    ensures
        b2.no_conflicts(),
{
    assert forall|i: int| 0 <= i < 9 implies group_no_dup(#[trigger] b2.row_seq(i)) by {
        if i != r {
            assert(b2.row_seq(i) =~= b1.row_seq(i));
        } else {
            let g1 = b1.row_seq(r);
            let g2 = b2.row_seq(r);
            assert forall|s: int, t: int|
                #![trigger g2[s], g2[t]]
                0 <= s < 9 && 0 <= t < 9 && s != t implies !(is_digit(g2[s]) && g2[s] == g2[t]) by {
                if s == c {
                    if g2[t] == v {
                        assert(g1[t] == v);
                        assert(g1.contains(v));
                    }
                } else if t == c {
                    if is_digit(g2[s]) && g2[s] == v {
                        assert(g1[s] == v);
                        assert(g1.contains(v));
                    }
                } else {
                    assert(g2[s] == g1[s] && g2[t] == g1[t]);
                }
            }
        }
    }
    assert forall|i: int| 0 <= i < 9 implies group_no_dup(#[trigger] b2.col_seq(i)) by {
        if i != c {
            assert(b2.col_seq(i) =~= b1.col_seq(i));
        } else {
            let g1 = b1.col_seq(c);
            let g2 = b2.col_seq(c);
            assert forall|s: int, t: int|
                #![trigger g2[s], g2[t]]
                0 <= s < 9 && 0 <= t < 9 && s != t implies !(is_digit(g2[s]) && g2[s] == g2[t]) by {
                if s == r {
                    if g2[t] == v {
                        assert(g1[t] == v);
                        assert(g1.contains(v));
                    }
                } else if t == r {
                    if is_digit(g2[s]) && g2[s] == v {
                        assert(g1[s] == v);
                        assert(g1.contains(v));
                    }
                } else {
                    assert(g2[s] == g1[s] && g2[t] == g1[t]);
                }
            }
        }
    }
    let k0 = (r % 3) * 3 + c % 3;
    assert forall|br: int, bc: int|
        0 <= br < 3 && 0 <= bc < 3 implies group_no_dup(#[trigger] b2.box_seq(br, bc)) by {
        if br != r / 3 || bc != c / 3 {
            assert forall|k: int| 0 <= k < 9 implies b2.box_seq(br, bc)[k] == b1.box_seq(br, bc)[k] by {
                assert(!(3 * br + k / 3 == r && 3 * bc + k % 3 == c)) by (nonlinear_arith)
                    requires
                        0 <= k < 9,
                        0 <= r < 9,
                        0 <= c < 9,
                        0 <= br < 3,
                        0 <= bc < 3,
                        br != r / 3 || bc != c / 3,
                ;
            }
            assert(b2.box_seq(br, bc) =~= b1.box_seq(br, bc));
        } else {
            let g1 = b1.box_seq(br, bc);
            let g2 = b2.box_seq(br, bc);
            assert forall|k: int| 0 <= k < 9 && k != k0 implies g2[k] == g1[k] by {
                assert(!(3 * br + k / 3 == r && 3 * bc + k % 3 == c)) by (nonlinear_arith)
                    requires
                        0 <= k < 9,
                        0 <= r < 9,
                        0 <= c < 9,
                        br == r / 3,
                        bc == c / 3,
                        k != (r % 3) * 3 + c % 3,
                ;
            }
            assert(g2[k0] == v) by {
                assert(3 * br + k0 / 3 == r && 3 * bc + k0 % 3 == c) by (nonlinear_arith)
                    requires
                        0 <= r < 9,
                        0 <= c < 9,
                        br == r / 3,
                        bc == c / 3,
                        k0 == (r % 3) * 3 + c % 3,
                ;
            }
            assert forall|s: int, t: int|
                #![trigger g2[s], g2[t]]
                0 <= s < 9 && 0 <= t < 9 && s != t implies !(is_digit(g2[s]) && g2[s] == g2[t]) by {
                if s == k0 {
                    if g2[t] == v {
                        assert(g1[t] == v);
                        assert(g1.contains(v));
                    }
                } else if t == k0 {
                    if is_digit(g2[s]) && g2[s] == v {
                        assert(g1[s] == v);
                        assert(g1.contains(v));
                    }
                } else {
                    assert(g2[s] == g1[s] && g2[t] == g1[t]);
                }
            }
        }
    }
}

/// A fully filled board whose every row, column and box is a permutation
/// of the nine digits passes the validity check.
pub proof fn lemma_permutations_make_valid(b: Board)
    requires
        forall|i: int| 0 <= i < 9 ==> is_digit_permutation(#[trigger] b.row_seq(i)),
        forall|i: int| 0 <= i < 9 ==> is_digit_permutation(#[trigger] b.col_seq(i)),
        forall|br: int, bc: int|
            0 <= br < 3 && 0 <= bc < 3 ==> is_digit_permutation(#[trigger] b.box_seq(br, bc)),
    ensures
        b.valid_spec(),
{
    assert forall|i: int| 0 <= i < 9 implies group_valid(#[trigger] b.row_seq(i)) by {
        lemma_permutation_group_valid(b.row_seq(i));
    }
    assert forall|i: int| 0 <= i < 9 implies group_valid(#[trigger] b.col_seq(i)) by {
        lemma_permutation_group_valid(b.col_seq(i));
    }
    assert forall|br: int, bc: int|
        0 <= br < 3 && 0 <= bc < 3 implies group_valid(#[trigger] b.box_seq(br, bc)) by {
        lemma_permutation_group_valid(b.box_seq(br, bc));
    }
}

/// A board with one group holding a duplicate or a blank (or any other
/// non-digit cell) fails the validity check.
pub proof fn lemma_flawed_group_makes_invalid(b: Board)
    requires
        (exists|i: int| 0 <= i < 9 && group_flawed(#[trigger] b.row_seq(i))) || (exists|i: int|
            0 <= i < 9 && group_flawed(#[trigger] b.col_seq(i))) || (exists|br: int, bc: int|
            0 <= br < 3 && 0 <= bc < 3 && group_flawed(#[trigger] b.box_seq(br, bc))),
    ensures
        !b.valid_spec(),
{
    if exists|i: int| 0 <= i < 9 && group_flawed(#[trigger] b.row_seq(i)) {
        let i = choose|i: int| 0 <= i < 9 && group_flawed(#[trigger] b.row_seq(i));
        lemma_flawed_group_not_valid(b.row_seq(i));
    } else if exists|i: int| 0 <= i < 9 && group_flawed(#[trigger] b.col_seq(i)) {
        let i = choose|i: int| 0 <= i < 9 && group_flawed(#[trigger] b.col_seq(i));
        lemma_flawed_group_not_valid(b.col_seq(i));
    } else {
        let (br, bc): (int, int) = choose|br: int, bc: int|
            0 <= br < 3 && 0 <= bc < 3 && group_flawed(#[trigger] b.box_seq(br, bc));
        lemma_flawed_group_not_valid(b.box_seq(br, bc));
    }
}

impl Board {
    /// The live cell at row `r`, column `c`.
    pub closed spec fn at(self, r: int, c: int) -> char {
        self.board[r][c]
    }

    /// The original (given) cell at row `r`, column `c`.
    pub closed spec fn orig_at(self, r: int, c: int) -> char {
        self.orig_board[r][c]
    }

    /// Cells filled in the original grid still hold their given value.
    pub open spec fn wf(self) -> bool {
        forall|r: int, c: int|
            0 <= r < 9 && 0 <= c < 9 && self.orig_at(r, c) != '.' ==> #[trigger] self.at(r, c)
                == self.orig_at(r, c)
    }

    /// Row `r` of the live grid, left to right.
    pub open spec fn row_seq(self, r: int) -> Seq<char> {
        Seq::new(9, |c: int| self.at(r, c))
    }

    /// Column `c` of the live grid, top to bottom.
    pub open spec fn col_seq(self, c: int) -> Seq<char> {
        Seq::new(9, |r: int| self.at(r, c))
    }

    /// The 3x3 box with box coordinates `(br, bc)`, both in [0,3),
    /// flattened row by row.
    pub open spec fn box_seq(self, br: int, bc: int) -> Seq<char> {
        Seq::new(9, |k: int| self.at(3 * br + k / 3, 3 * bc + k % 3))
    }

    /// Every row, column and box contains every digit.
    pub open spec fn valid_spec(self) -> bool {
        &&& forall|i: int| 0 <= i < 9 ==> group_valid(#[trigger] self.row_seq(i))
        &&& forall|i: int| 0 <= i < 9 ==> group_valid(#[trigger] self.col_seq(i))
        &&& forall|br: int, bc: int|
            0 <= br < 3 && 0 <= bc < 3 ==> group_valid(#[trigger] self.box_seq(br, bc))
    }
}

/// The built-in puzzle used when no grid is supplied at construction.
pub open spec fn default_rows() -> Seq<Seq<char>> {
    seq![
        seq!['5', '3', '.', '.', '7', '.', '.', '.', '.'],
        seq!['6', '.', '.', '1', '9', '5', '.', '.', '.'],
        seq!['.', '9', '8', '.', '.', '.', '.', '6', '.'],
        seq!['8', '.', '.', '.', '6', '.', '.', '.', '3'],
        seq!['4', '.', '.', '8', '.', '3', '.', '.', '1'],
        seq!['7', '.', '.', '.', '2', '.', '.', '.', '6'],
        seq!['.', '6', '.', '.', '.', '.', '2', '8', '.'],
        seq!['.', '.', '.', '4', '1', '9', '.', '.', '5'],
        seq!['.', '.', '.', '.', '8', '.', '.', '7', '9'],
    ]
}

/// The nine digit characters as an array, for scanning candidates.
pub(crate) fn digit_chars() -> (digs: [char; 9])
    ensures
        digs@ == digits(),
{
    let digs: [char; 9] = ['1', '2', '3', '4', '5', '6', '7', '8', '9'];
    proof {
        assert(digs@ =~= digits());
    }
    digs
}

/// Linear scan for one character in a nine-cell group.
pub(crate) fn contains_char(g: &[char; 9], x: char) -> (found: bool)
    ensures
        found == g@.contains(x),
{
    for k in 0..9usize
        invariant
            forall|t: int| 0 <= t < k ==> g@[t] != x,
    {
        if g[k] == x {
            return true;
        }
    }
    false
}

/// The nine digits are distinct, each is a digit, and every digit
/// character occurs among them.
pub proof fn lemma_digits()
    ensures
        digits().len() == 9,
        forall|k: int| 0 <= k < 9 ==> is_digit(#[trigger] digits()[k]),
        digits().no_duplicates(),
        forall|d: char| #[trigger] is_digit(d) ==> digits().contains(d),
{
    assert forall|d: char| #[trigger] is_digit(d) implies digits().contains(d) by {
        if d == '1' {
            assert(digits()[0] == d);
        } else if d == '2' {
            assert(digits()[1] == d);
        } else if d == '3' {
            assert(digits()[2] == d);
        } else if d == '4' {
            assert(digits()[3] == d);
        } else if d == '5' {
            assert(digits()[4] == d);
        } else if d == '6' {
            assert(digits()[5] == d);
        } else if d == '7' {
            assert(digits()[6] == d);
        } else if d == '8' {
            assert(digits()[7] == d);
        } else {
            assert(digits()[8] == d);
        }
    }
}

/// True exactly when the nine-cell group contains every digit.
fn is_row_valid(row: &[char; 9]) -> (valid: bool)
    ensures
        valid == group_valid(row@),
{
    let digs = digit_chars();
    for k in 0..9usize
        invariant
            digs@ == digits(),
            forall|t: int| 0 <= t < k ==> row@.contains(#[trigger] digits()[t]),
    {
        if !contains_char(row, digs[k]) {
            proof {
                lemma_digits();
                assert(is_digit(digits()[k as int]));
                assert(!row@.contains(digits()[k as int]));
            }
            return false;
        }
    }
    proof {
        lemma_digits();
        assert forall|d: char| is_digit(d) implies row@.contains(d) by {
            let t = choose|t: int| 0 <= t < 9 && digits()[t] == d;
            assert(row@.contains(digits()[t]));
        }
    }
    true
}

fn default_board() -> (a: [[char; 9]; 9])
    ensures
        forall|r: int, c: int|
            0 <= r < 9 && 0 <= c < 9 ==> a[r][c] == default_rows()[r][c],
{
    let a: [[char; 9]; 9] = [
        ['5', '3', '.', '.', '7', '.', '.', '.', '.'],
        ['6', '.', '.', '1', '9', '5', '.', '.', '.'],
        ['.', '9', '8', '.', '.', '.', '.', '6', '.'],
        ['8', '.', '.', '.', '6', '.', '.', '.', '3'],
        ['4', '.', '.', '8', '.', '3', '.', '.', '1'],
        ['7', '.', '.', '.', '2', '.', '.', '.', '6'],
        ['.', '6', '.', '.', '.', '.', '2', '8', '.'],
        ['.', '.', '.', '4', '1', '9', '.', '.', '5'],
        ['.', '.', '.', '.', '8', '.', '.', '7', '9'],
    ];
    a
}

impl Board {
    /// Builds a board from the supplied grid, or from the built-in puzzle
    /// when none is given. The grid is captured as both the live and the
    /// original state; no validation is performed, an inconsistent seed is
    /// accepted silently.
    pub fn new(board: Option<[[char; 9]; 9]>) -> (b: Board)
        ensures
            b.wf(),
            forall|r: int, c: int|
                0 <= r < 9 && 0 <= c < 9 ==> #[trigger] b.at(r, c) == b.orig_at(r, c),
            board is None ==> forall|r: int, c: int|
                0 <= r < 9 && 0 <= c < 9 ==> #[trigger] b.at(r, c) == default_rows()[r][c],
            board is Some ==> forall|r: int, c: int|
                0 <= r < 9 && 0 <= c < 9 ==> #[trigger] b.at(r, c) == board->Some_0[r][c],
    {
        match board {
            None => {
                let g = default_board();
                Board { board: g, orig_board: g }
            },
            Some(x) => Board { board: x, orig_board: x },
        }
    }

    /// Bounds-checked read of one cell.
    pub fn get(&self, row: usize, col: usize) -> (cell: char)
        requires
            row < 9,
            col < 9,
        ensures
            cell == self.at(row as int, col as int),
    {
        self.board[row][col]
    }

    /// Writes `val` into the cell and returns true when the cell is blank
    /// in the original grid; returns false and changes nothing when the
    /// cell is a given. Legality of the digit against its peers is not
    /// checked here: that is the strategies' concern.
    pub fn update_val(&mut self, row: usize, col: usize, val: char) -> (updated: bool)
        requires
            old(self).wf(),
            row < 9,
            col < 9,
            is_digit(val),
        ensures
            final(self).wf(),
            forall|r: int, c: int|
                0 <= r < 9 && 0 <= c < 9 ==> #[trigger] final(self).orig_at(r, c) == old(
                    self,
                ).orig_at(r, c),
            updated == (old(self).orig_at(row as int, col as int) == '.'),
            updated ==> final(self).at(row as int, col as int) == val,
            !updated ==> final(self).at(row as int, col as int) == old(self).at(
                row as int,
                col as int,
            ),
            forall|r: int, c: int|
                0 <= r < 9 && 0 <= c < 9 && !(r == row && c == col) ==> #[trigger] final(self).at(
                    r,
                    c,
                ) == old(self).at(r, c),
    {
        if self.orig_board[row][col] == '.' {
            self.board[row][col] = val;
            proof {
                assert forall|r: int, c: int|
                    0 <= r < 9 && 0 <= c < 9 && self.orig_at(r, c) != '.' implies #[trigger] self.at(
                    r,
                    c,
                ) == self.orig_at(r, c) by {
                    assert(self.orig_at(r, c) == old(self).orig_at(r, c));
                    if !(r == row && c == col) {
                        assert(self.at(r, c) == old(self).at(r, c));
                        assert(old(self).at(r, c) == old(self).orig_at(r, c));
                    }
                }
            }
            true
        } else {
            false
        }
    }

    /// Restores the live grid from the original grid, undoing every
    /// mutation made since construction.
    pub fn reset(&mut self)
        ensures
            final(self).wf(),
            forall|r: int, c: int|
                0 <= r < 9 && 0 <= c < 9 ==> #[trigger] final(self).orig_at(r, c) == old(
                    self,
                ).orig_at(r, c),
            forall|r: int, c: int|
                0 <= r < 9 && 0 <= c < 9 ==> #[trigger] final(self).at(r, c) == old(self).orig_at(
                    r,
                    c,
                ),
    {
        self.board = self.orig_board;
    }

    /// The requested row as an array, left to right.
    pub fn get_row(&self, row_idx: usize) -> (row: [char; 9])
        requires
            row_idx < 9,
        ensures
            row@ == self.row_seq(row_idx as int),
    {
        let row = self.board[row_idx];
        proof {
            assert(row@ =~= self.row_seq(row_idx as int));
        }
        row
    }

    /// The requested column as an array, top to bottom.
    pub fn get_col(&self, col_idx: usize) -> (col: [char; 9])
        requires
            col_idx < 9,
        ensures
            col@ == self.col_seq(col_idx as int),
    {
        let mut col: [char; 9] = ['.'; 9];
        for r in 0..9usize
            invariant
                col_idx < 9,
                forall|j: int| 0 <= j < r ==> col@[j] == self.at(j, col_idx as int),
        {
            col[r] = self.board[r][col_idx];
        }
        proof {
            assert(col@ =~= self.col_seq(col_idx as int));
        }
        col
    }

    /// The 3x3 box at box coordinates `grid_id`, both components in
    /// [0,3), flattened row by row.
    pub fn get_grid(&self, grid_id: (usize, usize)) -> (grid: [char; 9])
        requires
            grid_id.0 < 3,
            grid_id.1 < 3,
        ensures
            grid@ == self.box_seq(grid_id.0 as int, grid_id.1 as int),
    {
        let mut grid: [char; 9] = ['.'; 9];
        for k in 0..9usize
            invariant
                grid_id.0 < 3,
                grid_id.1 < 3,
                forall|j: int|
                    0 <= j < k ==> grid@[j] == self.box_seq(grid_id.0 as int, grid_id.1 as int)[j],
        {
            grid[k] = self.board[grid_id.0 * 3 + k / 3][grid_id.1 * 3 + k % 3];
        }
        proof {
            assert(grid@ =~= self.box_seq(grid_id.0 as int, grid_id.1 as int));
        }
        grid
    }

    /// The row, column and box that constrain the cell at
    /// `(row_idx, col_idx)`; the box is the one containing that cell.
    pub fn get_row_col_grid(&self, row_idx: usize, col_idx: usize) -> (peers: (
        [char; 9],
        [char; 9],
        [char; 9],
    ))
        requires
            row_idx < 9,
            col_idx < 9,
        ensures
            peers.0@ == self.row_seq(row_idx as int),
            peers.1@ == self.col_seq(col_idx as int),
            peers.2@ == self.box_seq(row_idx as int / 3, col_idx as int / 3),
    {
        let row = self.get_row(row_idx);
        let col = self.get_col(col_idx);
        let grid = self.get_grid((row_idx / 3, col_idx / 3));
        (row, col, grid)
    }

    /// Total validity check: true exactly when every row, column and box
    /// contains every digit. Blanks simply fail the check; no error is
    /// ever raised.
    pub fn is_valid(&self) -> (valid: bool)
        ensures
            valid == self.valid_spec(),
    {
        for i in 0..9usize
            invariant
                forall|j: int| 0 <= j < i ==> group_valid(#[trigger] self.row_seq(j)),
                forall|j: int| 0 <= j < i ==> group_valid(#[trigger] self.col_seq(j)),
                forall|br: int, bc: int|
                    0 <= br < 3 && 0 <= bc < 3 && 3 * br + bc < i ==> group_valid(
                        #[trigger] self.box_seq(br, bc),
                    ),
        {
            let row = self.get_row(i);
            if !is_row_valid(&row) {
                return false;
            }
            let col = self.get_col(i);
            if !is_row_valid(&col) {
                return false;
            }
            let grid = self.get_grid((i / 3, i % 3));
            if !is_row_valid(&grid) {
                return false;
            }
        }
        true
    }
}

} // verus!
