//! The board of the propagation engine: cells, addressing, authoring, and
//! the row/column/sub-box geometry that all constraints are stated over.

use vstd::prelude::*;

use crate::utils::Vec2D;

verus! {

/// One cell of a board: unresolved, fixed by the puzzle author, or fixed by
/// the solver. Only the solver ever writes or clears a `Guess`; a `Given` is
/// placed while authoring and never altered afterwards.
#[derive(Clone, Copy, PartialEq, Eq, Structural, Debug)]
pub enum Cell {
    Empty,
    Given(usize),
    Guess(usize),
}

impl Cell {
    /// The numeric value a cell carries; an unresolved cell yields 0.
    pub open spec fn spec_value(self) -> usize {
        match self {
            Cell::Empty => 0,
            Cell::Given(val) => val,
            Cell::Guess(val) => val,
        }
    }

    /// Whether the cell holds a committed value (given or guessed).
    pub open spec fn is_fixed(self) -> bool {
        !(self is Empty)
    }

    /// Interprets an authored number: 0 clears the cell, anything else places
    /// a given.
    pub fn as_given(val: usize) -> (r: Self)
        ensures
            r == (if val == 0 {
                Cell::Empty
            } else {
                Cell::Given(val)
            }),
    {
        match val {
            0 => Self::Empty,
            _ => Self::Given(val),
        }
    }

    pub fn value(&self) -> (r: usize)
        ensures
            r == self.spec_value(),
    {
        match self {
            Self::Empty => 0,
            Self::Given(val) => *val,
            Self::Guess(val) => *val,
        }
    }
}

/// A Sudoku board of sub-box order `order`: a square grid with
/// `order * order` rows and columns, stored row-major.
pub struct GameBoard {
    pub order: usize,
    pub cells: Vec<Cell>,
}

impl GameBoard {
    /// Number of rows (and of columns, and of cells per sub-box).
    pub open spec fn spec_size(self) -> int {
        self.order * self.order
    }

    /// Row-major index of a position.
    pub open spec fn flat(self, pos: Vec2D) -> int {
        pos.0 * self.spec_size() + pos.1
    }

    pub open spec fn in_range(self, pos: Vec2D) -> bool {
        pos.0 < self.spec_size() && pos.1 < self.spec_size()
    }

    pub open spec fn cell(self, pos: Vec2D) -> Cell {
        self.cells@[self.flat(pos)]
    }

    /// Structural well-formedness: a usable order, a fully allocated grid,
    /// and every committed value within `1..=size`.
    pub open spec fn wf(self) -> bool {
        &&& 1 <= self.order <= 255
        &&& self.cells@.len() == self.spec_size() * self.spec_size()
        &&& forall|i: int|
            0 <= i < self.cells@.len() && (#[trigger] self.cells@[i]).is_fixed() ==> 1
                <= self.cells@[i].spec_value() <= self.spec_size()
    }

    /// Whether two distinct positions share a sub-box.
    pub open spec fn same_box(self, p: Vec2D, q: Vec2D) -> bool {
        p.0 / self.order == q.0 / self.order && p.1 / self.order == q.1 / self.order
    }

    /// Whether `q` lies in the row, the column, or the sub-box of `p`
    /// (including `q == p` itself).
    pub open spec fn sees(self, p: Vec2D, q: Vec2D) -> bool {
        p.0 == q.0 || p.1 == q.1 || self.same_box(p, q)
    }

    /// Two distinct positions constrain each other.
    pub open spec fn peers(self, p: Vec2D, q: Vec2D) -> bool {
        p != q && self.sees(p, q)
    }

    /// The Sudoku legality invariant: no two fixed peers carry equal values.
    pub open spec fn legal(self) -> bool {
        forall|p: Vec2D, q: Vec2D|
            self.in_range(p) && self.in_range(q) && #[trigger] self.peers(p, q) && self.cell(
                p,
            ).is_fixed() && self.cell(q).is_fixed() ==> self.cell(p).spec_value() != self.cell(
                q,
            ).spec_value()
    }

    /// Every cell is committed.
    pub open spec fn full(self) -> bool {
        forall|i: int| 0 <= i < self.cells@.len() ==> (#[trigger] self.cells@[i]).is_fixed()
    }

    /// A board of the given sub-box order with every cell unresolved.
    pub fn create_empty(order: usize) -> (r: Self)
        requires
            1 <= order <= 255,
        ensures
            r.wf(),
            r.order == order,
            forall|i: int| 0 <= i < r.cells@.len() ==> r.cells@[i] == Cell::Empty,
    {
        proof {
            lemma_size_bounds(order as int);
        }
        let size = order * order;
        let n_cells = size * size;
        let mut cells: Vec<Cell> = Vec::new();
        let mut k: usize = 0;
        while k < n_cells
            invariant
                k <= n_cells,
                cells@.len() == k,
                forall|i: int| 0 <= i < k ==> cells@[i] == Cell::Empty,
            decreases n_cells - k,
        {
            cells.push(Cell::Empty);
            k = k + 1;
        }
        GameBoard { order, cells }
    }

    /// The number of rows (and columns) of the board.
    pub fn board_size(&self) -> (r: usize)
        requires
            self.order <= 255,
        ensures
            r == self.spec_size(),
    {
        proof {
            assert(self.order * self.order <= 65025) by (nonlinear_arith)
                requires
                    self.order <= 255,
            ;
        }
        self.order * self.order
    }

    /// The cell at a position.
    pub fn cell_at(&self, pos: Vec2D) -> (r: Cell)
        requires
            self.wf(),
            self.in_range(pos),
        ensures
            r == self.cell(pos),
    {
        proof {
            lemma_size_bounds(self.order as int);
            lemma_flat_in_bounds(*self, pos);
        }
        self.cells[pos.0 * (self.order * self.order) + pos.1]
    }

    /// Writes a cell at a position. This is the authoring surface (placing or
    /// clearing a given) and is also how the solver commits a guess.
    pub fn set_cell(&mut self, pos: Vec2D, cell: Cell)
        requires
            old(self).wf(),
            old(self).in_range(pos),
            cell.is_fixed() ==> 1 <= cell.spec_value() <= old(self).spec_size(),
        ensures
            final(self).wf(),
            final(self).order == old(self).order,
            final(self).cells@ == old(self).cells@.update(old(self).flat(pos), cell),
    {
        proof {
            lemma_size_bounds(self.order as int);
            lemma_flat_in_bounds(*self, pos);
        }
        let i = pos.0 * (self.order * self.order) + pos.1;
        self.cells[i] = cell;
    }

    /// The top-left position of the sub-box containing `pos`.
    pub fn box_position(&self, pos: Vec2D) -> (r: Vec2D)
        requires
            self.wf(),
            self.in_range(pos),
        ensures
            r.0 == (pos.0 / self.order) * self.order,
            r.1 == (pos.1 / self.order) * self.order,
    {
        proof {
            lemma_size_bounds(self.order as int);
            lemma_box_base(self.order as int, pos.0 as int);
            lemma_box_base(self.order as int, pos.1 as int);
        }
        pos.divided_by(self.order).times(self.order)
    }

    /// All positions of the sub-box containing `pos`, row-major within the
    /// box. The result enumerates exactly the positions `q` with
    /// `self.same_box(pos, q)`.
    pub fn box_cell_positions(&self, pos: Vec2D) -> (r: Vec<Vec2D>)
        requires
            self.wf(),
            self.in_range(pos),
        ensures
            r@.len() == self.order * self.order,
            forall|k: int|
                0 <= k < r@.len() ==> self.in_range(#[trigger] r@[k]) && self.same_box(pos, r@[k]),
            forall|q: Vec2D| self.in_range(q) && self.same_box(pos, q) ==> r@.contains(q),
    {
        let n = self.order;
        proof {
            lemma_size_bounds(n as int);
            lemma_box_base(self.order as int, pos.0 as int);
            lemma_box_base(self.order as int, pos.1 as int);
        }
        let bx = (pos.0 / n) * n;
        let by = (pos.1 / n) * n;
        let n_box = n * n;
        let mut r: Vec<Vec2D> = Vec::new();
        let mut k: usize = 0;
        while k < n_box
            invariant
                self.wf(),
                self.in_range(pos),
                n == self.order,
                n_box == n * n,
                bx == (pos.0 / n) * n,
                by == (pos.1 / n) * n,
                bx + n <= self.spec_size(),
                by + n <= self.spec_size(),
                self.spec_size() <= 65025,
                k <= n_box,
                r@.len() == k,
                forall|t: int|
                    0 <= t < k ==> #[trigger] r@[t] == Vec2D(
                        (bx + t / (n as int)) as usize,
                        (by + t % (n as int)) as usize,
                    ),
            decreases n_box - k,
        {
            proof {
                assert(k / n < n && 0 <= k % n < n) by (nonlinear_arith)
                    requires
                        1 <= n,
                        0 <= k < n * n,
                ;
            }
            r.push(Vec2D::new(bx + k / n, by + k % n));
            k = k + 1;
        }
        proof {
            lemma_box_cells_complete(*self, pos, r@);
        }
        r
    }
}

/// Bounds on the derived sizes of a board of sub-box order at most 255.
pub proof fn lemma_size_bounds(order: int)
    requires
        1 <= order <= 255,
    ensures
        order * order <= 65025,
        (order * order) * (order * order) <= 4228250625,
{
    assert(order * order <= 65025 && (order * order) * (order * order) <= 4228250625)
        by (nonlinear_arith)
        requires
            1 <= order <= 255,
    ;
}

/// The flat index of an in-range position lies within the grid.
pub proof fn lemma_flat_in_bounds(b: GameBoard, pos: Vec2D)
    requires
        b.wf(),
        b.in_range(pos),
    ensures
        0 <= b.flat(pos) < b.cells@.len(),
        b.flat(pos) == pos.0 * (b.order * b.order) + pos.1,
{
    let s = b.spec_size();
    assert(pos.0 * s + pos.1 < s * s) by (nonlinear_arith)
        requires
            0 <= pos.0 < s,
            0 <= pos.1 < s,
    ;
    assert(pos.0 * s + pos.1 >= 0) by (nonlinear_arith)
        requires
            pos.0 >= 0,
            pos.1 >= 0,
            s >= 0,
    ;
}

/// Every cell index of the grid is the flat index of an in-range position.
pub proof fn lemma_unflat(b: GameBoard, c: int)
    requires
        b.wf(),
        0 <= c < b.cells@.len(),
    ensures
        exists|p: Vec2D| b.in_range(p) && b.flat(p) == c,
{
    lemma_size_bounds(b.order as int);
    let s = b.spec_size();
    let r = c / s;
    let cc = c % s;
    assert(0 <= r < s && 0 <= cc < s && r * s + cc == c) by (nonlinear_arith)
        requires
            1 <= s,
            0 <= c < s * s,
            r == c / s,
            cc == c % s,
    ;
    let p = Vec2D(r as usize, cc as usize);
    assert(b.in_range(p) && b.flat(p) == c);
}

/// Distinct in-range positions have distinct flat indices.
pub proof fn lemma_flat_injective(b: GameBoard, p: Vec2D, q: Vec2D)
    requires
        b.wf(),
        b.in_range(p),
        b.in_range(q),
        p != q,
    ensures
        b.flat(p) != b.flat(q),
{
    let s = b.spec_size();
    assert(p.0 * s + p.1 != q.0 * s + q.1) by (nonlinear_arith)
        requires
            0 <= p.0 < s,
            0 <= p.1 < s,
            0 <= q.0 < s,
            0 <= q.1 < s,
            !(p.0 == q.0 && p.1 == q.1),
    ;
}

/// Division bounds for the top-left corner of a sub-box: the corner is at
/// most `v`, and the box it starts extends no further than the grid edge.
proof fn lemma_box_base(n: int, v: int)
    requires
        1 <= n,
        0 <= v < n * n,
    ensures
        (v / n) * n <= v,
        (v / n) * n + n <= n * n,
        0 <= v - (v / n) * n < n,
{
    assert((v / n) * n <= v && 0 <= v - (v / n) * n < n && v / n < n) by (nonlinear_arith)
        requires
            1 <= n,
            0 <= v < n * n,
    ;
    assert((v / n) * n + n <= n * n) by (nonlinear_arith)
        requires
            1 <= n,
            v / n < n,
    ;
}

/// Every position in the sub-box of `pos` appears in a row-major enumeration
/// of that sub-box.
proof fn lemma_box_cells_complete(b: GameBoard, pos: Vec2D, r: Seq<Vec2D>)
    requires
        b.wf(),
        b.in_range(pos),
        r.len() == b.order * b.order,
        forall|t: int|
            0 <= t < r.len() ==> #[trigger] r[t] == Vec2D(
                ((pos.0 / b.order) * b.order + t / (b.order as int)) as usize,
                ((pos.1 / b.order) * b.order + t % (b.order as int)) as usize,
            ),
    ensures
        forall|k: int| 0 <= k < r.len() ==> b.in_range(#[trigger] r[k]) && b.same_box(pos, r[k]),
        forall|q: Vec2D| b.in_range(q) && b.same_box(pos, q) ==> r.contains(q),
{
    let n = b.order as int;
    lemma_size_bounds(n);
    lemma_box_base(n, pos.0 as int);
    lemma_box_base(n, pos.1 as int);
    let bx = (pos.0 as int / n) * n;
    let by = (pos.1 as int / n) * n;
    assert forall|k: int| 0 <= k < r.len() implies b.in_range(#[trigger] r[k]) && b.same_box(
        pos,
        r[k],
    ) by {
        let a = k / n;
        let c = k % n;
        assert(0 <= a < n && 0 <= c < n) by (nonlinear_arith)
            requires
                1 <= n,
                0 <= k < n * n,
                a == k / n,
                c == k % n,
        ;
        assert(r[k] == Vec2D((bx + a) as usize, (by + c) as usize));
        assert((bx + a) / n == pos.0 as int / n && (by + c) / n == pos.1 as int / n)
            by (nonlinear_arith)
            requires
                1 <= n,
                0 <= a < n,
                0 <= c < n,
                bx == (pos.0 as int / n) * n,
                by == (pos.1 as int / n) * n,
        ;
        assert(bx + a < n * n && by + c < n * n) by (nonlinear_arith)
            requires
                1 <= n,
                0 <= a < n,
                0 <= c < n,
                bx + n <= n * n,
                by + n <= n * n,
        ;
    }
    assert forall|q: Vec2D| b.in_range(q) && b.same_box(pos, q) implies r.contains(q) by {
        let a = q.0 as int - bx;
        let c = q.1 as int - by;
        assert(q.0 as int / n == pos.0 as int / n && q.1 as int / n == pos.1 as int / n);
        lemma_box_base(n, q.0 as int);
        lemma_box_base(n, q.1 as int);
        assert(0 <= a < n && 0 <= c < n);
        let k = a * n + c;
        assert(0 <= k < n * n && k / n == a && k % n == c) by (nonlinear_arith)
            requires
                1 <= n,
                0 <= a < n,
                0 <= c < n,
                k == a * n + c,
        ;
        assert(r[k] == q);
    }
}

} // verus!
