//! The classic 9x9 board with an exhaustive depth-first solver, proved to
//! succeed exactly on solvable boards and to restore the board on failure.

use vstd::prelude::*;

use crate::utils::Vec2D;

verus! {

/// One cell of the classic 9x9 board: unresolved, fixed by the puzzle author,
/// or fixed by the solver.
#[derive(Clone, Copy, PartialEq, Eq, Structural, Debug)]
pub enum Cell {
    Empty,
    Given(u8),
    Guess(u8),
}

impl Cell {
    /// The numeric value a cell carries; an unresolved cell yields 0.
    pub open spec fn spec_value(self) -> u8 {
        match self {
            Cell::Empty => 0,
            Cell::Given(num) => num,
            Cell::Guess(num) => num,
        }
    }

    pub open spec fn is_fixed(self) -> bool {
        !(self is Empty)
    }

    pub fn value(&self) -> (r: u8)
        ensures
            r == self.spec_value(),
    {
        match self {
            Cell::Empty => 0,
            Cell::Given(num) => *num,
            Cell::Guess(num) => *num,
        }
    }
}

impl Default for Cell {
    fn default() -> (r: Self)
        ensures
            r == Cell::Empty,
    {
        Self::Empty
    }
}

/// Row of a flat cell index.
pub open spec fn row9(i: int) -> int {
    i / 9
}

/// Column of a flat cell index.
pub open spec fn col9(i: int) -> int {
    i % 9
}

/// Whether two flat indices lie in the same 3x3 sub-box.
pub open spec fn same_box9(i: int, j: int) -> bool {
    row9(i) / 3 == row9(j) / 3 && col9(i) / 3 == col9(j) / 3
}

/// Whether `j` lies in the row, the column, or the sub-box of `i`
/// (including `j == i`).
pub open spec fn sees9(i: int, j: int) -> bool {
    row9(i) == row9(j) || col9(i) == col9(j) || same_box9(i, j)
}

/// Two distinct cells constrain each other.
pub open spec fn peers9(i: int, j: int) -> bool {
    i != j && sees9(i, j)
}

/// No fixed cell visible from cell `i` carries the value `v`, so placing `v`
/// at `i` conflicts with nothing.
pub open spec fn can_place(b: Seq<Cell>, i: int, v: u8) -> bool {
    forall|j: int|
        0 <= j < 81 && #[trigger] sees9(i, j) && b[j].is_fixed() ==> b[j].spec_value() != v
}

/// A full assignment `f` that the solver may reach from board `b`: it keeps
/// every fixed value of `b`, stays in `1..=9`, and any two peers are distinct
/// unless both were already fixed in `b` (the solver never re-checks the
/// authored cells against each other).
pub open spec fn completion(b: Seq<Cell>, f: Seq<u8>) -> bool {
    &&& f.len() == 81
    &&& forall|i: int| 0 <= i < 81 ==> 1 <= #[trigger] f[i] <= 9
    &&& forall|i: int| 0 <= i < 81 && (#[trigger] b[i]).is_fixed() ==> f[i] == b[i].spec_value()
    &&& forall|i: int, j: int|
        0 <= i < 81 && 0 <= j < 81 && #[trigger] peers9(i, j) && !(b[i].is_fixed()
            && b[j].is_fixed()) ==> f[i] != f[j]
}

/// The depth-first search succeeds exactly on solvable boards.
pub open spec fn solvable(b: Seq<Cell>) -> bool {
    exists|f: Seq<u8>| completion(b, f)
}

/// The values carried by each cell of a board.
pub open spec fn board_values(b: Seq<Cell>) -> Seq<u8> {
    Seq::new(81, |i: int| b[i].spec_value())
}

pub open spec fn full(b: Seq<Cell>) -> bool {
    forall|i: int| 0 <= i < 81 ==> (#[trigger] b[i]).is_fixed()
}

/// Number of unresolved cells; the termination measure of the search.
pub open spec fn count_empty(b: Seq<Cell>) -> nat
    decreases b.len(),
{
    if b.len() == 0 {
        0
    } else {
        count_empty(b.drop_last()) + (if b.last() is Empty {
            1nat
        } else {
            0nat
        })
    }
}

/// The classic 9x9 board for the exhaustive depth-first solver.
pub struct GameBoard {
    pub cells: Vec<Cell>,
}

impl Default for GameBoard {
    /// A board with all 81 cells unresolved.
    fn default() -> (r: Self)
        ensures
            r.wf(),
            forall|i: int| 0 <= i < 81 ==> r.cells@[i] == Cell::Empty,
    {
        let mut cells: Vec<Cell> = Vec::new();
        let mut k: usize = 0;
        while k < 81
            invariant
                k <= 81,
                cells@.len() == k,
                forall|i: int| 0 <= i < k ==> cells@[i] == Cell::Empty,
            decreases 81 - k,
        {
            cells.push(Cell::Empty);
            k = k + 1;
        }
        GameBoard { cells }
    }
}

impl GameBoard {
    pub open spec fn flat(pos: Vec2D) -> int {
        pos.0 * 9 + pos.1
    }

    pub open spec fn in_range(pos: Vec2D) -> bool {
        pos.0 < 9 && pos.1 < 9
    }

    /// Structural well-formedness: 81 cells, committed values within `1..=9`.
    pub open spec fn wf(self) -> bool {
        &&& self.cells@.len() == 81
        &&& forall|i: int|
            0 <= i < 81 && (#[trigger] self.cells@[i]).is_fixed() ==> 1
                <= self.cells@[i].spec_value() <= 9
    }

    /// A board from a 9x9 grid of numbers; 0 marks an unresolved cell,
    /// anything else a given.
    pub fn new(board: [[u8; 9]; 9]) -> (r: Self)
        requires
            forall|i: int, j: int| 0 <= i < 9 && 0 <= j < 9 ==> #[trigger] board@[i]@[j] <= 9,
        ensures
            r.wf(),
            forall|i: int, j: int|
                0 <= i < 9 && 0 <= j < 9 ==> #[trigger] r.cells@[i * 9 + j] == (if board@[i]@[j]
                    == 0 {
                    Cell::Empty
                } else {
                    Cell::Given(board@[i]@[j])
                }),
    {
        let mut gameboard = Self::default();
        let mut i: usize = 0;
        while i < 9
            invariant
                i <= 9,
                gameboard.cells@.len() == 81,
                forall|a: int, b: int| 0 <= a < 9 && 0 <= b < 9 ==> #[trigger] board@[a]@[b] <= 9,
                forall|a: int, b: int|
                    0 <= a < i && 0 <= b < 9 ==> #[trigger] gameboard.cells@[a * 9 + b] == (
                    if board@[a]@[b] == 0 {
                        Cell::Empty
                    } else {
                        Cell::Given(board@[a]@[b])
                    }),
                forall|t: int| i * 9 <= t < 81 ==> #[trigger] gameboard.cells@[t] == Cell::Empty,
            decreases 9 - i,
        {
            let mut j: usize = 0;
            while j < 9
                invariant
                    i < 9,
                    j <= 9,
                    gameboard.cells@.len() == 81,
                    forall|a: int, b: int|
                        0 <= a < 9 && 0 <= b < 9 ==> #[trigger] board@[a]@[b] <= 9,
                    forall|a: int, b: int|
                        0 <= a < i && 0 <= b < 9 ==> #[trigger] gameboard.cells@[a * 9 + b] == (
                        if board@[a]@[b] == 0 {
                            Cell::Empty
                        } else {
                            Cell::Given(board@[a]@[b])
                        }),
                    forall|b: int|
                        0 <= b < j ==> #[trigger] gameboard.cells@[i * 9 + b] == (
                        if board@[i as int]@[b] == 0 {
                            Cell::Empty
                        } else {
                            Cell::Given(board@[i as int]@[b])
                        }),
                    forall|t: int|
                        i * 9 + j <= t < 81 ==> #[trigger] gameboard.cells@[t] == Cell::Empty,
                decreases 9 - j,
            {
                let num = board[i][j];
                if num != 0 {
                    gameboard.cells[i * 9 + j] = Cell::Given(num);
                }
                proof {
                    lemma_flat9(i as int, j as int);
                    assert forall|a: int, b: int| 0 <= a < i && 0 <= b < 9 implies #[trigger] gameboard.cells@[a
                        * 9 + b] == (if board@[a]@[b] == 0 {
                        Cell::Empty
                    } else {
                        Cell::Given(board@[a]@[b])
                    }) by {
                        lemma_flat9(a, b);
                        assert(a * 9 + b < i * 9 + j) by (nonlinear_arith)
                            requires
                                0 <= a < i,
                                0 <= b < 9,
                                0 <= j,
                        ;
                    }
                }
                j = j + 1;
            }
            i = i + 1;
        }
        proof {
            assert forall|t: int|
                0 <= t < 81 && (#[trigger] gameboard.cells@[t]).is_fixed() implies 1
                <= gameboard.cells@[t].spec_value() <= 9 by {
                lemma_flat9_inv(t);
                assert(gameboard.cells@[row9(t) * 9 + col9(t)] == (if board@[row9(t)]@[col9(t)]
                    == 0 {
                    Cell::Empty
                } else {
                    Cell::Given(board@[row9(t)]@[col9(t)])
                }));
            }
        }
        gameboard
    }

    /// The value grid of the board, 0 for unresolved cells.
    pub fn as_raw(&self) -> (r: Vec<Vec<u8>>)
        requires
            self.wf(),
        ensures
            r@.len() == 9,
            forall|i: int| 0 <= i < 9 ==> #[trigger] r@[i]@.len() == 9,
            forall|i: int, j: int|
                0 <= i < 9 && 0 <= j < 9 ==> #[trigger] r@[i]@[j] == self.cells@[i * 9
                    + j].spec_value(),
    {
        let mut board: Vec<Vec<u8>> = Vec::new();
        let mut i: usize = 0;
        while i < 9
            invariant
                self.wf(),
                i <= 9,
                board@.len() == i,
                forall|a: int| 0 <= a < i ==> #[trigger] board@[a]@.len() == 9,
                forall|a: int, b: int|
                    0 <= a < i && 0 <= b < 9 ==> #[trigger] board@[a]@[b] == self.cells@[a * 9
                        + b].spec_value(),
            decreases 9 - i,
        {
            let mut row: Vec<u8> = Vec::new();
            let mut j: usize = 0;
            while j < 9
                invariant
                    self.wf(),
                    i < 9,
                    j <= 9,
                    row@.len() == j,
                    forall|b: int|
                        0 <= b < j ==> #[trigger] row@[b] == self.cells@[i * 9 + b].spec_value(),
                decreases 9 - j,
            {
                proof {
                    lemma_flat9(i as int, j as int);
                }
                row.push(self.cells[i * 9 + j].value());
                j = j + 1;
            }
            board.push(row);
            i = i + 1;
        }
        board
    }

    /// The authoring surface: places a given at `pos`, or clears the cell
    /// when `num` is 0.
    pub fn set_cell(&mut self, pos: Vec2D, num: u8)
        requires
            old(self).wf(),
            Self::in_range(pos),
            num <= 9,
        ensures
            final(self).wf(),
            final(self).cells@ == old(self).cells@.update(
                Self::flat(pos),
                (if num == 0 {
                    Cell::Empty
                } else {
                    Cell::Given(num)
                }),
            ),
    {
        proof {
            lemma_flat9(pos.0 as int, pos.1 as int);
        }
        let cell = if num == 0 {
            Cell::Empty
        } else {
            Cell::Given(num)
        };
        self.cells[pos.0 * 9 + pos.1] = cell;
    }
}

impl GameBoard {
    /// Whether `num` already appears as a committed value somewhere in the
    /// row or the column of `idx` (the cell at `idx` itself included).
    fn is_present_in_rows_or_cols(&self, idx: Vec2D, num: u8) -> (r: bool)
        requires
            self.wf(),
            Self::in_range(idx),
        ensures
            r <==> exists|j: int|
                0 <= j < 81 && (row9(j) == idx.0 || col9(j) == idx.1) && (
                #[trigger] self.cells@[j]).is_fixed() && self.cells@[j].spec_value() == num,
    {
        let row_idx = idx.x();
        let col_idx = idx.y();
        let mut k: usize = 0;
        while k < 9
            invariant
                self.wf(),
                Self::in_range(idx),
                row_idx == idx.0,
                col_idx == idx.1,
                k <= 9,
                forall|t: int|
                    0 <= t < k ==> !((#[trigger] self.cells@[idx.0 * 9 + t]).is_fixed()
                        && self.cells@[idx.0 * 9 + t].spec_value() == num),
                forall|t: int|
                    0 <= t < k ==> !((#[trigger] self.cells@[t * 9 + idx.1]).is_fixed()
                        && self.cells@[t * 9 + idx.1].spec_value() == num),
            decreases 9 - k,
        {
            proof {
                lemma_flat9(idx.0 as int, k as int);
                lemma_flat9(k as int, idx.1 as int);
            }
            match self.cells[row_idx * 9 + k] {
                Cell::Given(x) | Cell::Guess(x) => {
                    if x == num {
                        proof {
                            let j = idx.0 * 9 + k as int;
                            assert(0 <= j < 81 && row9(j) == idx.0 && self.cells@[j].is_fixed()
                                && self.cells@[j].spec_value() == num);
                        }
                        return true;
                    }
                },
                _ => {},
            }
            match self.cells[k * 9 + col_idx] {
                Cell::Given(x) | Cell::Guess(x) => {
                    if x == num {
                        proof {
                            let j = k as int * 9 + idx.1;
                            assert(0 <= j < 81 && col9(j) == idx.1 && self.cells@[j].is_fixed()
                                && self.cells@[j].spec_value() == num);
                        }
                        return true;
                    }
                },
                _ => {},
            }
            k = k + 1;
        }
        proof {
            assert forall|j: int|
                0 <= j < 81 && (row9(j) == idx.0 || col9(j) == idx.1) implies !((
            #[trigger] self.cells@[j]).is_fixed() && self.cells@[j].spec_value() == num) by {
                lemma_flat9_inv(j);
                if row9(j) == idx.0 {
                    assert(j == idx.0 * 9 + col9(j));
                } else {
                    assert(j == row9(j) * 9 + idx.1);
                }
            }
        }
        false
    }

    /// Whether `num` already appears as a committed value somewhere in the
    /// sub-box of `pos` (the cell at `pos` itself included).
    fn is_present_in_box(&self, pos: Vec2D, num: u8) -> (r: bool)
        requires
            self.wf(),
            Self::in_range(pos),
        ensures
            r <==> exists|j: int|
                0 <= j < 81 && same_box9(Self::flat(pos), j) && (
                #[trigger] self.cells@[j]).is_fixed() && self.cells@[j].spec_value() == num,
    {
        let box_start_cell = Vec2D::new(3 * (pos.x() / 3), 3 * (pos.y() / 3));
        let bx = box_start_cell.x();
        let by = box_start_cell.y();
        proof {
            lemma_flat9(pos.0 as int, pos.1 as int);
            assert(bx == 3 * (pos.0 / 3) && bx <= 6 && bx <= pos.0 < bx + 3) by (nonlinear_arith)
                requires
                    pos.0 < 9,
                    bx == 3 * (pos.0 / 3),
            ;
            assert(by == 3 * (pos.1 / 3) && by <= 6 && by <= pos.1 < by + 3) by (nonlinear_arith)
                requires
                    pos.1 < 9,
                    by == 3 * (pos.1 / 3),
            ;
        }
        let mut t: usize = 0;
        while t < 9
            invariant
                self.wf(),
                Self::in_range(pos),
                bx == 3 * (pos.0 / 3),
                by == 3 * (pos.1 / 3),
                bx <= 6,
                by <= 6,
                t <= 9,
                forall|u: int|
                    0 <= u < t ==> !((#[trigger] self.cells@[(bx + u / 3) * 9 + (by + u
                        % 3)]).is_fixed() && self.cells@[(bx + u / 3) * 9 + (by + u
                        % 3)].spec_value() == num),
            decreases 9 - t,
        {
            proof {
                assert(t / 3 < 3 && t % 3 < 3 && 0 <= t / 3 && 0 <= t % 3) by (nonlinear_arith)
                    requires
                        0 <= t < 9,
                ;
                lemma_flat9((bx + t / 3) as int, (by + t % 3) as int);
            }
            match self.cells[(bx + t / 3) * 9 + (by + t % 3)] {
                Cell::Given(x) | Cell::Guess(x) => {
                    if x == num {
                        proof {
                            let j = (bx + t as int / 3) * 9 + (by + t as int % 3);
                            lemma_same_box9_member(
                                pos.0 as int,
                                pos.1 as int,
                                bx + t as int / 3,
                                by + t as int % 3,
                            );
                        }
                        return true;
                    }
                },
                _ => {},
            }
            t = t + 1;
        }
        proof {
            assert forall|j: int| 0 <= j < 81 && same_box9(Self::flat(pos), j) implies !((
            #[trigger] self.cells@[j]).is_fixed() && self.cells@[j].spec_value() == num) by {
                lemma_flat9_inv(j);
                lemma_flat9(pos.0 as int, pos.1 as int);
                let dr = row9(j) - bx;
                let dc = col9(j) - by;
                assert(3 * (pos.0 as int / 3) <= row9(j) < 3 * (pos.0 as int / 3) + 3)
                    by (nonlinear_arith)
                    requires
                        0 <= row9(j) < 9,
                        row9(j) / 3 == pos.0 as int / 3,
                ;
                assert(3 * (pos.1 as int / 3) <= col9(j) < 3 * (pos.1 as int / 3) + 3)
                    by (nonlinear_arith)
                    requires
                        0 <= col9(j) < 9,
                        col9(j) / 3 == pos.1 as int / 3,
                ;
                let u = dr * 3 + dc;
                assert(0 <= u < 9 && u / 3 == dr && u % 3 == dc) by (nonlinear_arith)
                    requires
                        0 <= dr < 3,
                        0 <= dc < 3,
                        u == dr * 3 + dc,
                ;
                assert(j == (bx + u / 3) * 9 + (by + u % 3));
            }
        }
        false
    }

    /// Whether placing `num` at `pos` conflicts with no committed value in
    /// the row, column, or sub-box of `pos`.
    fn is_valid_place(&self, pos: Vec2D, num: u8) -> (r: bool)
        requires
            self.wf(),
            Self::in_range(pos),
        ensures
            r <==> can_place(self.cells@, Self::flat(pos), num),
    {
        let r = !self.is_present_in_rows_or_cols(pos, num) && !self.is_present_in_box(pos, num);
        proof {
            lemma_flat9(pos.0 as int, pos.1 as int);
            let i = Self::flat(pos);
            if r {
                assert forall|j: int|
                    0 <= j < 81 && #[trigger] sees9(i, j) && self.cells@[j].is_fixed() implies self.cells@[j].spec_value()
                    != num by {
                    lemma_flat9_inv(j);
                }
            } else {
                if exists|j: int|
                    0 <= j < 81 && (row9(j) == pos.0 || col9(j) == pos.1) && (
                    #[trigger] self.cells@[j]).is_fixed() && self.cells@[j].spec_value() == num {
                    let j = choose|j: int|
                        0 <= j < 81 && (row9(j) == pos.0 || col9(j) == pos.1) && (
                        #[trigger] self.cells@[j]).is_fixed() && self.cells@[j].spec_value()
                            == num;
                    assert(sees9(i, j) && self.cells@[j].is_fixed() && self.cells@[j].spec_value()
                        == num);
                } else {
                    let j = choose|j: int|
                        0 <= j < 81 && same_box9(i, j) && (#[trigger] self.cells@[j]).is_fixed()
                            && self.cells@[j].spec_value() == num;
                    assert(sees9(i, j) && self.cells@[j].is_fixed() && self.cells@[j].spec_value()
                        == num);
                }
                assert(!can_place(self.cells@, i, num));
            }
        }
        r
    }
}

/// A cell lies in the same sub-box as `(rr, cc)` exactly when its row and
/// column fall in the same blocks of three.
proof fn lemma_same_box9_member(rr: int, cc: int, ar: int, ac: int)
    requires
        0 <= rr < 9,
        0 <= cc < 9,
        3 * (rr / 3) <= ar < 3 * (rr / 3) + 3,
        3 * (cc / 3) <= ac < 3 * (cc / 3) + 3,
    ensures
        0 <= ar < 9,
        0 <= ac < 9,
        same_box9(rr * 9 + cc, ar * 9 + ac),
{
    lemma_flat9(rr, cc);
    assert(0 <= ar < 9 && ar / 3 == rr / 3) by (nonlinear_arith)
        requires
            0 <= rr < 9,
            3 * (rr / 3) <= ar < 3 * (rr / 3) + 3,
    ;
    assert(0 <= ac < 9 && ac / 3 == cc / 3) by (nonlinear_arith)
        requires
            0 <= cc < 9,
            3 * (cc / 3) <= ac < 3 * (cc / 3) + 3,
    ;
    lemma_flat9(ar, ac);
}

/// Committing an unresolved cell lowers the count of unresolved cells by one.
pub proof fn lemma_count_empty_update(b: Seq<Cell>, i: int, c: Cell)
    requires
        0 <= i < b.len(),
        b[i] is Empty,
        c.is_fixed(),
    ensures
        count_empty(b.update(i, c)) + 1 == count_empty(b),
    decreases b.len(),
{
    let b2 = b.update(i, c);
    if i == b.len() - 1 {
        assert(b2.drop_last() =~= b.drop_last());
        assert(b2.last() == c);
    } else {
        assert(b2.drop_last() =~= b.drop_last().update(i, c));
        lemma_count_empty_update(b.drop_last(), i, c);
        assert(b2.last() == b.last());
    }
}

/// A full board whose committed values are in range is completed by its own
/// values.
proof fn lemma_completion_full(b: Seq<Cell>)
    requires
        b.len() == 81,
        forall|i: int|
            0 <= i < 81 && (#[trigger] b[i]).is_fixed() ==> 1 <= b[i].spec_value() <= 9,
        full(b),
    ensures
        completion(b, board_values(b)),
{
}

/// A completion reached after soundly committing `v` at an unresolved cell
/// is already a completion of the board before the placement.
proof fn lemma_lift_completion(b: Seq<Cell>, i: int, v: u8, f: Seq<u8>)
    requires
        b.len() == 81,
        0 <= i < 81,
        b[i] is Empty,
        1 <= v <= 9,
        can_place(b, i, v),
        completion(b.update(i, Cell::Guess(v)), f),
    ensures
        completion(b, f),
{
    let b2 = b.update(i, Cell::Guess(v));
    assert(b2[i] == Cell::Guess(v) && b2[i].is_fixed());
    assert(f[i] == v);
    assert forall|t: int|
        0 <= t < 81 && (#[trigger] b[t]).is_fixed() implies f[t] == b[t].spec_value() by {
        assert(b2[t] == b[t] && b2[t].is_fixed());
    }
    assert forall|p: int, q: int|
        0 <= p < 81 && 0 <= q < 81 && #[trigger] peers9(p, q) && !(b[p].is_fixed()
            && b[q].is_fixed()) implies f[p] != f[q] by {
        if !(b2[p].is_fixed() && b2[q].is_fixed()) {
            assert(f[p] != f[q]);
        } else {
            if p == i {
                assert(sees9(i, q) && b[q].is_fixed());
                assert(f[q] == b[q].spec_value());
                assert(b[q].spec_value() != v);
            } else {
                assert(q == i);
                assert(sees9(i, p) && b[p].is_fixed());
                assert(f[p] == b[p].spec_value());
                assert(b[p].spec_value() != v);
            }
        }
    }
}

/// A completion that assigns `v` to an unresolved cell also completes the
/// board with `v` committed there.
proof fn lemma_push_completion(b: Seq<Cell>, i: int, v: u8, f: Seq<u8>)
    requires
        b.len() == 81,
        0 <= i < 81,
        b[i] is Empty,
        completion(b, f),
        f[i] == v,
    ensures
        completion(b.update(i, Cell::Guess(v)), f),
{
    let b2 = b.update(i, Cell::Guess(v));
    assert forall|p: int, q: int|
        0 <= p < 81 && 0 <= q < 81 && #[trigger] peers9(p, q) && !(b2[p].is_fixed()
            && b2[q].is_fixed()) implies f[p] != f[q] by {
        assert(b2[p].is_fixed() || !b[p].is_fixed());
        assert(b2[q].is_fixed() || !b[q].is_fixed());
    }
}

impl GameBoard {
    /// Depth-first search: finds the first unresolved cell in row-major
    /// order, tries each value `1..=9` that conflicts with no committed
    /// value, and recurses; a failed trial is undone before the next one.
    /// Succeeds exactly on solvable boards, leaving a solution in place on
    /// success and the board untouched on failure.
    pub fn backtracking_solver(&mut self) -> (r: bool)
        requires
            old(self).wf(),
        ensures
            final(self).wf(),
            r <==> solvable(old(self).cells@),
            r ==> full(final(self).cells@) && completion(
                old(self).cells@,
                board_values(final(self).cells@),
            ),
            r ==> forall|t: int|
                0 <= t < 81 && (#[trigger] old(self).cells@[t]).is_fixed()
                    ==> final(self).cells@[t] == old(self).cells@[t],
            !r ==> final(self).cells@ == old(self).cells@,
        decreases count_empty(old(self).cells@),
    {
        let ghost b0 = self.cells@;
        let mut first_empty_pos: Option<usize> = None;
        let mut k: usize = 0;
        while k < 81 && first_empty_pos.is_none()
            invariant
                self.wf(),
                self.cells@ == b0,
                k <= 81,
                match first_empty_pos {
                    None => forall|t: int| 0 <= t < k ==> (#[trigger] b0[t]).is_fixed(),
                    Some(i) => i < 81 && b0[i as int] is Empty,
                },
            decreases 81 - k,
        {
            match self.cells[k] {
                Cell::Empty => {
                    first_empty_pos = Some(k);
                },
                _ => {},
            }
            k = k + 1;
        }
        match first_empty_pos {
            None => {
                proof {
                    lemma_completion_full(b0);
                }
                true
            },
            Some(ip) => {
                let pos = Vec2D::new(ip / 9, ip % 9);
                proof {
                    lemma_flat9_inv(ip as int);
                }
                let mut num: u8 = 1;
                while num <= 9
                    invariant
                        self.wf(),
                        self.cells@ == b0,
                        b0 == old(self).cells@,
                        ip < 81,
                        b0[ip as int] is Empty,
                        pos.0 == row9(ip as int),
                        pos.1 == col9(ip as int),
                        GameBoard::in_range(pos),
                        GameBoard::flat(pos) == ip as int,
                        1 <= num <= 10,
                        forall|f: Seq<u8>|
                            #[trigger] completion(b0, f) ==> !(f[ip as int] < num),
                    decreases 10 - num,
                {
                    if self.is_valid_place(pos, num) {
                        proof {
                            lemma_count_empty_update(b0, ip as int, Cell::Guess(num));
                        }
                        let ghost can = can_place(b0, ip as int, num);
                        self.cells[ip] = Cell::Guess(num);
                        let ghost b1 = self.cells@;
                        let solved = self.backtracking_solver();
                        if solved {
                            proof {
                                lemma_lift_completion(
                                    b0,
                                    ip as int,
                                    num,
                                    board_values(self.cells@),
                                );
                                assert forall|t: int|
                                    0 <= t < 81 && (#[trigger] b0[t]).is_fixed() implies self.cells@[t]
                                    == b0[t] by {
                                    assert(b1[t] == b0[t] && b1[t].is_fixed());
                                }
                            }
                            return true;
                        }
                        self.cells[ip] = Cell::Empty;
                        proof {
                            assert(self.cells@ =~= b0);
                            assert forall|f: Seq<u8>| #[trigger] completion(b0, f) implies !(
                            f[ip as int] < num + 1) by {
                                if f[ip as int] == num {
                                    lemma_push_completion(b0, ip as int, num, f);
                                    assert(completion(b1, f));
                                    assert(solvable(b1));
                                    assert(false);
                                }
                            }
                        }
                    } else {
                        proof {
                            assert forall|f: Seq<u8>| #[trigger] completion(b0, f) implies !(
                            f[ip as int] < num + 1) by {
                                if f[ip as int] == num {
                                    let j = choose|j: int|
                                        0 <= j < 81 && #[trigger] sees9(ip as int, j)
                                            && b0[j].is_fixed() && b0[j].spec_value() == num;
                                    assert(peers9(ip as int, j));
                                    assert(f[j] == b0[j].spec_value());
                                    assert(false);
                                }
                            }
                        }
                    }
                    num = num + 1;
                }
                proof {
                    assert forall|f: Seq<u8>| !completion(b0, f) by {
                        if completion(b0, f) {
                            assert(1 <= f[ip as int] <= 9);
                        }
                    }
                }
                false
            },
        }
    }
}

/// The authored fixed cells are pairwise legal: no two fixed peers carry
/// equal values.
pub open spec fn legal9(b: Seq<Cell>) -> bool {
    forall|i: int, j: int|
        0 <= i < 81 && 0 <= j < 81 && #[trigger] peers9(i, j) && b[i].is_fixed()
            && b[j].is_fixed() ==> b[i].spec_value() != b[j].spec_value()
}

/// Row, column, and sub-box uniqueness of a solved board: on a legally
/// authored board, any assignment the solver can succeed with places no
/// equal values on peer cells.
pub proof fn lemma_completion_valid(b: Seq<Cell>, f: Seq<u8>)
    requires
        b.len() == 81,
        completion(b, f),
        legal9(b),
    ensures
        forall|i: int, j: int|
            0 <= i < 81 && 0 <= j < 81 && #[trigger] peers9(i, j) ==> f[i] != f[j],
{
    assert forall|i: int, j: int|
        0 <= i < 81 && 0 <= j < 81 && #[trigger] peers9(i, j) implies f[i] != f[j] by {
        if b[i].is_fixed() && b[j].is_fixed() {
            assert(f[i] == b[i].spec_value() && f[j] == b[j].spec_value());
        }
    }
}

/// Every flat index decomposes into its row and column.
pub proof fn lemma_flat9_inv(t: int)
    requires
        0 <= t < 81,
    ensures
        0 <= row9(t) < 9,
        0 <= col9(t) < 9,
        row9(t) * 9 + col9(t) == t,
{
    assert(0 <= t / 9 < 9 && 0 <= t % 9 < 9 && (t / 9) * 9 + t % 9 == t) by (nonlinear_arith)
        requires
            0 <= t < 81,
    ;
}

/// Row-major decomposition of a flat index built from a row and a column.
pub proof fn lemma_flat9(rr: int, cc: int)
    requires
        0 <= rr < 9,
        0 <= cc < 9,
    ensures
        0 <= rr * 9 + cc < 81,
        row9(rr * 9 + cc) == rr,
        col9(rr * 9 + cc) == cc,
{
    assert(0 <= rr * 9 + cc < 81 && (rr * 9 + cc) / 9 == rr && (rr * 9 + cc) % 9 == cc)
        by (nonlinear_arith)
        requires
            0 <= rr < 9,
            0 <= cc < 9,
    ;
}

} // verus!
