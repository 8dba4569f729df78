//! The constraint-propagation engine: candidate sets, the entropy-ordered
//! frontier, snapshotting, and the stepping protocol with rollback.

use vstd::prelude::*;

use crate::board::Cell;
use crate::board::GameBoard;
use crate::pqueue::queue_clone;
use crate::pqueue::queue_entries;
use crate::pqueue::queue_new;
use crate::pqueue::queue_peek;
use crate::pqueue::queue_push;
use crate::pqueue::queue_remove;
use crate::pqueue::queue_set_priority;
use crate::pqueue::EntropyQueue;
use crate::utils::Vec2D;

verus! {

/// The candidate set of one unresolved cell: the values still legal there,
/// kept strictly ascending.
///
/// For scheduling, candidate sets are ranked by cardinality alone — two sets
/// with equally many candidates are tied no matter which values remain.
/// Equality between `CellTile`s follows the same rule: it compares only the
/// number of remaining candidates, never their contents.
pub struct CellTile(pub Vec<usize>);

impl CellTile {
    /// Strictly ascending candidates, all within `1..=size`.
    pub open spec fn wf(self, size: int) -> bool {
        &&& forall|a: int, b: int| 0 <= a < b < self.0@.len() ==> self.0@[a] < self.0@[b]
        &&& forall|a: int| 0 <= a < self.0@.len() ==> 1 <= #[trigger] self.0@[a] <= size
    }

    /// The number of remaining candidates: the entropy of the cell.
    pub fn len(&self) -> (r: usize)
        ensures
            r == self.0@.len(),
    {
        self.0.len()
    }
}

impl PartialEq for CellTile {
    /// Candidate sets compare by cardinality only.
    fn eq(&self, other: &Self) -> (r: bool) {
        self.0.len() == other.0.len()
    }
}

impl vstd::std_specs::cmp::PartialEqSpecImpl for CellTile {
    open spec fn obeys_eq_spec() -> bool {
        true
    }

    open spec fn eq_spec(&self, other: &Self) -> bool {
        self.0@.len() == other.0@.len()
    }
}

/// The full candidate range `1..=n_size`, in ascending order.
fn full_tile(n_size: usize) -> (v: Vec<usize>)
    ensures
        v@.len() == n_size,
        forall|a: int| 0 <= a < n_size ==> #[trigger] v@[a] == a + 1,
{
    let mut v: Vec<usize> = Vec::new();
    let mut t: usize = 0;
    while t < n_size
        invariant
            t <= n_size,
            v@.len() == t,
            forall|a: int| 0 <= a < t ==> #[trigger] v@[a] == a + 1,
        decreases n_size - t,
    {
        v.push(t + 1);
        t = t + 1;
    }
    v
}

/// In a strictly ascending sequence of values at least 1, the entry at `i`
/// is at least `i + 1`.
proof fn lemma_ascending_lower(t: Seq<usize>, i: int)
    requires
        forall|a: int, b: int| 0 <= a < b < t.len() ==> t[a] < t[b],
        forall|a: int| 0 <= a < t.len() ==> 1 <= #[trigger] t[a],
        0 <= i < t.len(),
    ensures
        t[i] >= 1 + i,
    decreases i,
{
    if i > 0 {
        lemma_ascending_lower(t, i - 1);
    }
}

/// A well-formed candidate set holds at most `size` values.
pub proof fn lemma_tile_len_bound(tile: CellTile, size: int)
    requires
        tile.wf(size),
        size >= 0,
    ensures
        tile.0@.len() <= size,
{
    let t = tile.0@;
    if t.len() > 0 {
        lemma_ascending_lower(t, t.len() - 1);
    }
}

/// One snapshot of the propagation engine: a board together with its
/// frontier — every unresolved position with its candidate set.
///
/// The frontier is held in two synchronized parts: `tiles` carries each
/// unresolved position's candidate set, and `entropy_queue` schedules those
/// positions by priority `size - candidates`, so that its maximal entry is
/// always a position with fewest remaining candidates.
pub struct WaveState {
    pub gameboard: GameBoard,
    pub entropy_queue: EntropyQueue,
    pub tiles: Vec<(Vec2D, CellTile)>,
}

impl WaveState {
    /// Number of rows and columns of the owned board.
    pub open spec fn size(self) -> int {
        self.gameboard.spec_size()
    }

    pub open spec fn n_tiles(self) -> int {
        self.tiles@.len() as int
    }

    pub open spec fn pos_at(self, i: int) -> Vec2D {
        self.tiles@[i].0
    }

    pub open spec fn key_at(self, i: int) -> (usize, usize) {
        (self.tiles@[i].0.0, self.tiles@[i].0.1)
    }

    pub open spec fn tile_at(self, i: int) -> Seq<usize> {
        self.tiles@[i].1.0@
    }

    /// A position is unresolved at this snapshot.
    pub open spec fn in_frontier(self, p: Vec2D) -> bool {
        exists|i: int| 0 <= i < self.n_tiles() && self.pos_at(i) == p
    }

    pub open spec fn tiles_distinct(self) -> bool {
        forall|i: int, j: int|
            0 <= i < j < self.n_tiles() ==> #[trigger] self.pos_at(i) != #[trigger] self.pos_at(j)
    }

    /// The queue holds exactly the frontier positions, each at priority
    /// `size - candidates`.
    pub open spec fn queue_synced(self) -> bool {
        let m = queue_entries(self.entropy_queue);
        &&& forall|i: int|
            0 <= i < self.n_tiles() ==> m.dom().contains(#[trigger] self.key_at(i)) && m[self.key_at(
                i,
            )] == self.size() - self.tile_at(i).len()
        &&& forall|k: (usize, usize)|
            m.dom().contains(k) ==> exists|i: int| 0 <= i < self.n_tiles() && self.key_at(i) == k
    }

    /// Structural soundness of one snapshot: a well-formed board, distinct
    /// in-range frontier positions with well-formed candidate sets, and the
    /// scheduling queue in step with them.
    pub open spec fn sync(self) -> bool {
        &&& self.gameboard.wf()
        &&& self.tiles_distinct()
        &&& forall|i: int|
            0 <= i < self.n_tiles() ==> self.gameboard.in_range(#[trigger] self.pos_at(i))
                && self.tiles@[i].1.wf(self.size())
        &&& self.queue_synced()
    }

    /// The frontier holds an in-range position exactly when its board cell
    /// is unresolved.
    pub open spec fn consistent(self) -> bool {
        forall|p: Vec2D|
            self.gameboard.in_range(p) ==> (#[trigger] self.in_frontier(p)
                <==> self.gameboard.cell(p) is Empty)
    }

    /// No candidate duplicates a value already committed on a peer: what the
    /// engine is about to place can never collide with a fixed cell.
    pub open spec fn sound(self) -> bool {
        forall|i: int, q: Vec2D|
            0 <= i < self.n_tiles() && self.gameboard.in_range(q) && #[trigger] self.gameboard.peers(
                self.pos_at(i),
                q,
            ) && self.gameboard.cell(q).is_fixed() ==> !self.tile_at(i).contains(
                self.gameboard.cell(q).spec_value(),
            )
    }

    /// All invariants that every reachable snapshot maintains.
    pub open spec fn wfall(self) -> bool {
        self.sync() && self.consistent() && self.sound()
    }

    /// Every missing candidate is explained: a value absent from a frontier
    /// cell's candidate set is committed on some peer of that cell. Together
    /// with `sound`, the candidate set then equals the full range minus the
    /// values visible on peers. This holds of a freshly built engine and is
    /// preserved by stepping, but not by the snapshots kept for rollback,
    /// which drop the tried candidate without committing it anywhere.
    pub open spec fn exact(self) -> bool {
        forall|i: int, v: usize|
            0 <= i < self.n_tiles() && 1 <= v <= self.size() && !(#[trigger] self.tile_at(
                i,
            ).contains(v)) ==> exists|q: Vec2D|
                self.gameboard.in_range(q) && self.gameboard.peers(self.pos_at(i), q)
                    && self.gameboard.cell(q).is_fixed() && self.gameboard.cell(q).spec_value()
                    == v
    }

    /// Whether `p` comes strictly before `(i, j)` in a row-major scan.
    pub open spec fn lex_before(p: Vec2D, i: int, j: int) -> bool {
        p.0 < i || (p.0 == i && p.1 < j)
    }

    /// Builds a snapshot from an authored board, which holds only givens and
    /// unresolved cells: every unresolved position enters the frontier with
    /// the full candidate range `1..=size`, and the ranges are then pruned by
    /// one elimination pass per given, in row-major order. The board itself
    /// is taken over unchanged.
    pub fn build(gameboard: GameBoard) -> (r: Self)
        requires
            gameboard.wf(),
            forall|i: int|
                0 <= i < gameboard.cells@.len() ==> !((#[trigger] gameboard.cells@[i]) is Guess),
        ensures
            r.gameboard == gameboard,
            r.sync(),
            r.consistent(),
            r.sound(),
            r.exact(),
    {
        let n_size = gameboard.board_size();
        let mut ws = WaveState { gameboard, entropy_queue: queue_new(), tiles: Vec::new() };
        let mut i: usize = 0;
        while i < n_size
            invariant
                ws.gameboard == gameboard,
                gameboard.wf(),
                n_size == ws.size(),
                i <= n_size,
                ws.tiles_distinct(),
                ws.queue_synced(),
                forall|t: int|
                    0 <= t < ws.n_tiles() ==> ws.gameboard.in_range(#[trigger] ws.pos_at(t))
                        && Self::lex_before(ws.pos_at(t), i as int, 0) && ws.gameboard.cell(
                        ws.pos_at(t),
                    ) is Empty,
                forall|t: int, a: int|
                    0 <= t < ws.n_tiles() && 0 <= a < n_size ==> #[trigger] ws.tile_at(t)[a] == a
                        + 1,
                forall|t: int| 0 <= t < ws.n_tiles() ==> #[trigger] ws.tile_at(t).len() == n_size,
                forall|p: Vec2D|
                    ws.gameboard.in_range(p) && Self::lex_before(p, i as int, 0)
                        && ws.gameboard.cell(p) is Empty ==> #[trigger] ws.in_frontier(p),
            decreases n_size - i,
        {
            let mut j: usize = 0;
            while j < n_size
                invariant
                    ws.gameboard == gameboard,
                    gameboard.wf(),
                    n_size == ws.size(),
                    i < n_size,
                    j <= n_size,
                    ws.tiles_distinct(),
                    ws.queue_synced(),
                    forall|t: int|
                        0 <= t < ws.n_tiles() ==> ws.gameboard.in_range(#[trigger] ws.pos_at(t))
                            && Self::lex_before(ws.pos_at(t), i as int, j as int)
                            && ws.gameboard.cell(ws.pos_at(t)) is Empty,
                    forall|t: int, a: int|
                        0 <= t < ws.n_tiles() && 0 <= a < n_size ==> #[trigger] ws.tile_at(t)[a]
                            == a + 1,
                    forall|t: int|
                        0 <= t < ws.n_tiles() ==> #[trigger] ws.tile_at(t).len() == n_size,
                    forall|p: Vec2D|
                        ws.gameboard.in_range(p) && Self::lex_before(p, i as int, j as int)
                            && ws.gameboard.cell(p) is Empty ==> #[trigger] ws.in_frontier(p),
                decreases n_size - j,
            {
                let pos = Vec2D::new(i, j);
                let ghost wsa = ws;
                match ws.gameboard.cell_at(pos) {
                    Cell::Empty => {
                        let fresh = CellTile(full_tile(n_size));
                        let ghost fresh_view = fresh.0@;
                        ws.tiles.push((pos, fresh));
                        queue_push(&mut ws.entropy_queue, (pos.0, pos.1), 0);
                        proof {
                            let nt = ws.n_tiles();
                            assert(ws.pos_at(nt - 1) == pos);
                            assert(ws.tile_at(nt - 1) == fresh_view);
                            assert forall|t: int|
                                0 <= t < nt implies ws.gameboard.in_range(#[trigger] ws.pos_at(t))
                                && Self::lex_before(ws.pos_at(t), i as int, j + 1)
                                && ws.gameboard.cell(ws.pos_at(t)) is Empty by {
                                if t < nt - 1 {
                                    assert(ws.tiles@[t] == wsa.tiles@[t]);
                                    assert(wsa.gameboard.in_range(wsa.pos_at(t)));
                                }
                            }
                            assert forall|t: int, a: int|
                                0 <= t < nt && 0 <= a < n_size implies #[trigger] ws.tile_at(t)[a]
                                == a + 1 by {
                                if t < nt - 1 {
                                    assert(ws.tiles@[t] == wsa.tiles@[t]);
                                    assert(wsa.tile_at(t)[a] == a + 1);
                                } else {
                                    assert(ws.tile_at(t) == fresh_view);
                                    assert(fresh_view[a] == a + 1);
                                }
                            }
                            assert forall|t: int|
                                0 <= t < nt implies #[trigger] ws.tile_at(t).len() == n_size by {
                                if t < nt - 1 {
                                    assert(ws.tiles@[t] == wsa.tiles@[t]);
                                    assert(wsa.tile_at(t).len() == n_size);
                                }
                            }
                            assert forall|t: int, tt: int|
                                0 <= t < tt < nt implies #[trigger] ws.pos_at(t)
                                != #[trigger] ws.pos_at(tt) by {
                                if tt < nt - 1 {
                                    assert(wsa.pos_at(t) != wsa.pos_at(tt));
                                } else {
                                    assert(Self::lex_before(wsa.pos_at(t), i as int, j as int));
                                }
                            }
                            assert forall|k: (usize, usize)|
                                queue_entries(ws.entropy_queue).dom().contains(k) implies exists|
                                t: int,
                            |
                                0 <= t < ws.n_tiles() && ws.key_at(t) == k by {
                                if k == (pos.0, pos.1) {
                                    assert(ws.key_at(nt - 1) == k);
                                } else {
                                    let t = choose|t: int|
                                        0 <= t < wsa.n_tiles() && wsa.key_at(t) == k;
                                    assert(ws.key_at(t) == k);
                                }
                            }
                            assert forall|t: int| 0 <= t < nt implies queue_entries(
                                ws.entropy_queue,
                            ).dom().contains(#[trigger] ws.key_at(t)) && queue_entries(
                                ws.entropy_queue,
                            )[ws.key_at(t)] == ws.size() - ws.tile_at(t).len() by {
                                if t < nt - 1 {
                                    assert(wsa.pos_at(t) != pos);
                                    assert(ws.key_at(t) == wsa.key_at(t));
                                    assert(ws.key_at(t) != (pos.0, pos.1));
                                }
                            }
                            assert forall|p: Vec2D|
                                ws.gameboard.in_range(p) && Self::lex_before(
                                    p,
                                    i as int,
                                    j + 1,
                                ) && ws.gameboard.cell(p) is Empty implies #[trigger] ws.in_frontier(
                                p,
                            ) by {
                                if p == pos {
                                    assert(ws.pos_at(nt - 1) == p);
                                } else {
                                    assert(Self::lex_before(p, i as int, j as int));
                                    assert(wsa.in_frontier(p));
                                    let t = choose|t: int|
                                        0 <= t < wsa.n_tiles() && wsa.pos_at(t) == p;
                                    assert(ws.pos_at(t) == p);
                                }
                            }
                        }
                    },
                    _ => {
                        proof {
                            assert forall|p: Vec2D|
                                ws.gameboard.in_range(p) && Self::lex_before(
                                    p,
                                    i as int,
                                    j + 1,
                                ) && ws.gameboard.cell(p) is Empty implies #[trigger] ws.in_frontier(
                                p,
                            ) by {
                                assert(p != pos);
                                assert(Self::lex_before(p, i as int, j as int));
                            }
                        }
                    },
                }
                j = j + 1;
            }
            i = i + 1;
        }
        proof {
            assert forall|t: int| 0 <= t < ws.n_tiles() implies ws.tiles@[t].1.wf(ws.size()) by {
                assert(ws.tile_at(t).len() == n_size);
            }
            assert(ws.sync());
            assert forall|p: Vec2D| ws.gameboard.in_range(p) implies (#[trigger] ws.in_frontier(p)
                <==> ws.gameboard.cell(p) is Empty) by {
                if ws.gameboard.cell(p) is Empty {
                    assert(Self::lex_before(p, n_size as int, 0));
                }
                if ws.in_frontier(p) {
                    let t = choose|t: int| 0 <= t < ws.n_tiles() && ws.pos_at(t) == p;
                    assert(ws.gameboard.cell(ws.pos_at(t)) is Empty);
                }
            }
            assert forall|t: int, u: usize|
                0 <= t < ws.n_tiles() implies (#[trigger] ws.tile_at(t).contains(u) <==> 1 <= u
                <= n_size) by {
                if ws.tile_at(t).contains(u) {
                    let a = choose|a: int| 0 <= a < ws.tile_at(t).len() && ws.tile_at(t)[a] == u;
                    assert(ws.tile_at(t)[a] == a + 1);
                }
                if 1 <= u <= n_size {
                    assert(ws.tile_at(t)[u - 1] == u);
                }
            }
        }
        let ghost ws0 = ws;
        let mut i2: usize = 0;
        while i2 < n_size
            invariant
                ws.gameboard == gameboard,
                gameboard.wf(),
                forall|c: int|
                    0 <= c < gameboard.cells@.len() ==> !((#[trigger] gameboard.cells@[c]) is Guess),
                n_size == ws.size(),
                i2 <= n_size,
                ws.sync(),
                ws.consistent(),
                ws.n_tiles() == ws0.n_tiles(),
                forall|t: int| 0 <= t < ws0.n_tiles() ==> ws.pos_at(t) == ws0.pos_at(t),
                forall|t: int, u: usize|
                    0 <= t < ws.n_tiles() ==> (#[trigger] ws.tile_at(t).contains(u) <==> 1 <= u
                        <= n_size && !(exists|q: Vec2D|
                        ws.gameboard.in_range(q) && Self::lex_before(q, i2 as int, 0)
                            && ws.gameboard.cell(q).is_fixed() && ws.gameboard.sees(
                            q,
                            ws.pos_at(t),
                        ) && ws.gameboard.cell(q).spec_value() == u)),
            decreases n_size - i2,
        {
            let mut j2: usize = 0;
            while j2 < n_size
                invariant
                    ws.gameboard == gameboard,
                    gameboard.wf(),
                    forall|c: int|
                        0 <= c < gameboard.cells@.len() ==> !((
                        #[trigger] gameboard.cells@[c]) is Guess),
                    n_size == ws.size(),
                    i2 < n_size,
                    j2 <= n_size,
                    ws.sync(),
                    ws.consistent(),
                    ws.n_tiles() == ws0.n_tiles(),
                    forall|t: int| 0 <= t < ws0.n_tiles() ==> ws.pos_at(t) == ws0.pos_at(t),
                    forall|t: int, u: usize|
                        0 <= t < ws.n_tiles() ==> (#[trigger] ws.tile_at(t).contains(u) <==> 1 <= u
                            <= n_size && !(exists|q: Vec2D|
                            ws.gameboard.in_range(q) && Self::lex_before(q, i2 as int, j2 as int)
                                && ws.gameboard.cell(q).is_fixed() && ws.gameboard.sees(
                                q,
                                ws.pos_at(t),
                            ) && ws.gameboard.cell(q).spec_value() == u)),
                decreases n_size - j2,
            {
                let pos = Vec2D::new(i2, j2);
                let ghost wsa = ws;
                match ws.gameboard.cell_at(pos) {
                    Cell::Given(given_state) => {
                        ws.apply_heuristics(pos, given_state);
                        proof {
                            assert forall|p: Vec2D| ws.gameboard.in_range(p) implies (
                            #[trigger] ws.in_frontier(p) <==> ws.gameboard.cell(p) is Empty) by {
                                if wsa.in_frontier(p) {
                                    let t = choose|t: int|
                                        0 <= t < wsa.n_tiles() && wsa.pos_at(t) == p;
                                    assert(ws.pos_at(t) == p);
                                }
                                if ws.in_frontier(p) {
                                    let t = choose|t: int|
                                        0 <= t < ws.n_tiles() && ws.pos_at(t) == p;
                                    assert(wsa.pos_at(t) == p);
                                    assert(wsa.in_frontier(p));
                                }
                                assert(wsa.in_frontier(p) <==> ws.gameboard.cell(p) is Empty);
                            }
                            assert forall|t: int, u: usize|
                                0 <= t < ws.n_tiles() implies (#[trigger] ws.tile_at(t).contains(u)
                                <==> 1 <= u <= n_size && !(exists|q: Vec2D|
                                ws.gameboard.in_range(q) && Self::lex_before(q, i2 as int, j2 + 1)
                                    && ws.gameboard.cell(q).is_fixed() && ws.gameboard.sees(
                                    q,
                                    ws.pos_at(t),
                                ) && ws.gameboard.cell(q).spec_value() == u)) by {
                                let p_t = wsa.pos_at(t);
                                if wsa.gameboard.sees(pos, p_t) {
                                    assert(ws.tile_at(t).contains(u) <==> wsa.tile_at(t).contains(
                                        u,
                                    ) && u != given_state);
                                } else {
                                    assert(ws.tiles@[t] == wsa.tiles@[t]);
                                }
                                if ws.tile_at(t).contains(u) {
                                    assert(wsa.tile_at(t).contains(u));
                                    assert forall|q: Vec2D|
                                        ws.gameboard.in_range(q) && Self::lex_before(
                                            q,
                                            i2 as int,
                                            j2 + 1,
                                        ) && ws.gameboard.cell(q).is_fixed() && ws.gameboard.sees(
                                            q,
                                            ws.pos_at(t),
                                        ) implies ws.gameboard.cell(q).spec_value() != u by {
                                        if q == pos {
                                            assert(ws.gameboard.cell(pos).spec_value()
                                                == given_state);
                                            assert(u != given_state);
                                        } else {
                                            assert(Self::lex_before(q, i2 as int, j2 as int));
                                        }
                                    }
                                } else {
                                    if 1 <= u <= n_size {
                                        if wsa.tile_at(t).contains(u) {
                                            assert(u == given_state && wsa.gameboard.sees(
                                                pos,
                                                p_t,
                                            ));
                                            assert(ws.gameboard.in_range(pos)
                                                && Self::lex_before(pos, i2 as int, j2 + 1)
                                                && ws.gameboard.cell(pos).is_fixed()
                                                && ws.gameboard.sees(pos, ws.pos_at(t))
                                                && ws.gameboard.cell(pos).spec_value() == u);
                                        } else {
                                            let q = choose|q: Vec2D|
                                                wsa.gameboard.in_range(q) && Self::lex_before(
                                                    q,
                                                    i2 as int,
                                                    j2 as int,
                                                ) && wsa.gameboard.cell(q).is_fixed()
                                                    && wsa.gameboard.sees(q, wsa.pos_at(t))
                                                    && wsa.gameboard.cell(q).spec_value() == u;
                                            assert(Self::lex_before(q, i2 as int, j2 + 1));
                                        }
                                    }
                                }
                            }
                        }
                    },
                    _ => {
                        proof {
                            assert forall|t: int, u: usize|
                                0 <= t < ws.n_tiles() implies (#[trigger] ws.tile_at(t).contains(u)
                                <==> 1 <= u <= n_size && !(exists|q: Vec2D|
                                ws.gameboard.in_range(q) && Self::lex_before(q, i2 as int, j2 + 1)
                                    && ws.gameboard.cell(q).is_fixed() && ws.gameboard.sees(
                                    q,
                                    ws.pos_at(t),
                                ) && ws.gameboard.cell(q).spec_value() == u)) by {
                                crate::board::lemma_flat_in_bounds(ws.gameboard, pos);
                                assert(!(ws.gameboard.cells@[ws.gameboard.flat(pos)] is Guess));
                                assert(!ws.gameboard.cell(pos).is_fixed());
                                if ws.tile_at(t).contains(u) {
                                    assert forall|q: Vec2D|
                                        ws.gameboard.in_range(q) && Self::lex_before(
                                            q,
                                            i2 as int,
                                            j2 + 1,
                                        ) && ws.gameboard.cell(q).is_fixed() && ws.gameboard.sees(
                                            q,
                                            ws.pos_at(t),
                                        ) implies ws.gameboard.cell(q).spec_value() != u by {
                                        assert(q != pos);
                                        assert(Self::lex_before(q, i2 as int, j2 as int));
                                    }
                                } else {
                                    if 1 <= u <= n_size {
                                        let q = choose|q: Vec2D|
                                            ws.gameboard.in_range(q) && Self::lex_before(
                                                q,
                                                i2 as int,
                                                j2 as int,
                                            ) && ws.gameboard.cell(q).is_fixed()
                                                && ws.gameboard.sees(q, ws.pos_at(t))
                                                && ws.gameboard.cell(q).spec_value() == u;
                                        assert(Self::lex_before(q, i2 as int, j2 + 1));
                                    }
                                }
                            }
                        }
                    },
                }
                j2 = j2 + 1;
            }
            proof {
                assert forall|t: int, u: usize|
                    0 <= t < ws.n_tiles() implies (#[trigger] ws.tile_at(t).contains(u) <==> 1 <= u
                    <= n_size && !(exists|q: Vec2D|
                    ws.gameboard.in_range(q) && Self::lex_before(q, i2 + 1, 0)
                        && ws.gameboard.cell(q).is_fixed() && ws.gameboard.sees(q, ws.pos_at(t))
                        && ws.gameboard.cell(q).spec_value() == u)) by {
                    assert forall|q: Vec2D|
                        ws.gameboard.in_range(q) implies (Self::lex_before(q, i2 + 1, 0)
                        <==> Self::lex_before(q, i2 as int, n_size as int)) by {}
                    if ws.tile_at(t).contains(u) {
                        assert forall|q: Vec2D|
                            ws.gameboard.in_range(q) && Self::lex_before(q, i2 + 1, 0)
                                && ws.gameboard.cell(q).is_fixed() && ws.gameboard.sees(
                                q,
                                ws.pos_at(t),
                            ) implies ws.gameboard.cell(q).spec_value() != u by {
                            assert(Self::lex_before(q, i2 as int, n_size as int));
                        }
                    } else {
                        if 1 <= u <= n_size {
                            let q = choose|q: Vec2D|
                                ws.gameboard.in_range(q) && Self::lex_before(
                                    q,
                                    i2 as int,
                                    n_size as int,
                                ) && ws.gameboard.cell(q).is_fixed() && ws.gameboard.sees(
                                    q,
                                    ws.pos_at(t),
                                ) && ws.gameboard.cell(q).spec_value() == u;
                            assert(Self::lex_before(q, i2 + 1, 0));
                        }
                    }
                }
            }
            i2 = i2 + 1;
        }
        proof {
            assert forall|t: int, q: Vec2D|
                0 <= t < ws.n_tiles() && ws.gameboard.in_range(q) && #[trigger] ws.gameboard.peers(
                    ws.pos_at(t),
                    q,
                ) && ws.gameboard.cell(q).is_fixed() implies !ws.tile_at(t).contains(
                ws.gameboard.cell(q).spec_value(),
            ) by {
                let u = ws.gameboard.cell(q).spec_value();
                if ws.tile_at(t).contains(u) {
                    assert(Self::lex_before(q, n_size as int, 0));
                    assert(ws.gameboard.sees(q, ws.pos_at(t)));
                }
            }
            assert forall|t: int, v: usize|
                0 <= t < ws.n_tiles() && 1 <= v <= ws.size() && !(#[trigger] ws.tile_at(
                    t,
                ).contains(v)) implies exists|q: Vec2D|
                ws.gameboard.in_range(q) && ws.gameboard.peers(ws.pos_at(t), q)
                    && ws.gameboard.cell(q).is_fixed() && ws.gameboard.cell(q).spec_value()
                    == v by {
                let q = choose|q: Vec2D|
                    ws.gameboard.in_range(q) && Self::lex_before(q, n_size as int, 0)
                        && ws.gameboard.cell(q).is_fixed() && ws.gameboard.sees(q, ws.pos_at(t))
                        && ws.gameboard.cell(q).spec_value() == v;
                assert(ws.in_frontier(ws.pos_at(t)));
                assert(ws.gameboard.cell(ws.pos_at(t)) is Empty);
                assert(q != ws.pos_at(t));
                assert(ws.gameboard.peers(ws.pos_at(t), q));
            }
        }
        ws
    }

    /// Two snapshots carry the same data: boards, frontier positions,
    /// candidate sets, and queue entries agree.
    pub open spec fn state_like(self, other: WaveState) -> bool {
        &&& other.gameboard.order == self.gameboard.order
        &&& other.gameboard.cells@ == self.gameboard.cells@
        &&& other.n_tiles() == self.n_tiles()
        &&& forall|t: int| 0 <= t < self.n_tiles() ==> #[trigger] other.pos_at(t) == self.pos_at(t)
        &&& forall|t: int|
            0 <= t < self.n_tiles() ==> #[trigger] other.tile_at(t) == self.tile_at(t)
        &&& queue_entries(other.entropy_queue) == queue_entries(self.entropy_queue)
    }

    /// The invariants of a snapshot depend only on the data that
    /// `state_like` compares, so they carry over to a copy.
    pub proof fn lemma_like_transfers(self, other: WaveState)
        requires
            self.state_like(other),
        ensures
            self.sync() ==> other.sync(),
            self.consistent() ==> other.consistent(),
            self.sound() ==> other.sound(),
            self.exact() ==> other.exact(),
    {
        let n = self.n_tiles();
        assert forall|p: Vec2D| true implies (other.in_frontier(p) <==> self.in_frontier(p)) by {
            if self.in_frontier(p) {
                let t = choose|t: int| 0 <= t < n && self.pos_at(t) == p;
                assert(other.pos_at(t) == p);
            }
            if other.in_frontier(p) {
                let t = choose|t: int| 0 <= t < n && other.pos_at(t) == p;
                assert(self.pos_at(t) == p);
            }
        }
        assert forall|p: Vec2D| true implies #[trigger] other.gameboard.cell(p)
            == self.gameboard.cell(p) by {}
        if self.sync() {
            assert forall|t: int| 0 <= t < n implies other.gameboard.in_range(
                #[trigger] other.pos_at(t),
            ) && other.tiles@[t].1.wf(other.size()) by {
                assert(0 <= t < self.n_tiles());
                assert(self.gameboard.in_range(self.pos_at(t)));
                assert(self.tiles@[t].1.wf(self.size()));
                assert(other.tile_at(t) == self.tile_at(t));
                assert(other.tiles@[t].1.0@ == self.tiles@[t].1.0@);
            }
            assert forall|t: int, tt: int|
                0 <= t < tt < n implies #[trigger] other.pos_at(t) != #[trigger] other.pos_at(
                tt,
            ) by {
                assert(self.pos_at(t) != self.pos_at(tt));
            }
            assert forall|t: int| 0 <= t < n implies queue_entries(
                other.entropy_queue,
            ).dom().contains(#[trigger] other.key_at(t)) && queue_entries(other.entropy_queue)[other.key_at(
                t,
            )] == other.size() - other.tile_at(t).len() by {
                assert(other.pos_at(t) == self.pos_at(t));
                assert(other.tile_at(t) == self.tile_at(t));
                assert(other.key_at(t) == self.key_at(t));
            }
            assert forall|k: (usize, usize)|
                queue_entries(other.entropy_queue).dom().contains(k) implies exists|t: int|
                0 <= t < n && other.key_at(t) == k by {
                let t = choose|t: int| 0 <= t < n && self.key_at(t) == k;
                assert(other.pos_at(t) == self.pos_at(t));
                assert(other.key_at(t) == k);
            }
        }
        if self.sound() {
            assert forall|t: int, q: Vec2D|
                0 <= t < n && other.gameboard.in_range(q) && #[trigger] other.gameboard.peers(
                    other.pos_at(t),
                    q,
                ) && other.gameboard.cell(q).is_fixed() implies !other.tile_at(t).contains(
                other.gameboard.cell(q).spec_value(),
            ) by {
                assert(self.gameboard.peers(self.pos_at(t), q));
                assert(other.tile_at(t) == self.tile_at(t));
            }
        }
        if self.exact() {
            assert forall|t: int, v: usize|
                0 <= t < n && 1 <= v <= other.size() && !(#[trigger] other.tile_at(t).contains(
                    v,
                )) implies exists|q: Vec2D|
                other.gameboard.in_range(q) && other.gameboard.peers(other.pos_at(t), q)
                    && other.gameboard.cell(q).is_fixed() && other.gameboard.cell(q).spec_value()
                    == v by {
                assert(other.tile_at(t) == self.tile_at(t));
                assert(!self.tile_at(t).contains(v));
                assert(other.pos_at(t) == self.pos_at(t));
                let q = choose|q: Vec2D|
                    self.gameboard.in_range(q) && self.gameboard.peers(self.pos_at(t), q)
                        && self.gameboard.cell(q).is_fixed() && self.gameboard.cell(
                        q,
                    ).spec_value() == v;
                assert(other.gameboard.cell(q) == self.gameboard.cell(q));
                assert(other.gameboard.in_range(q) && other.gameboard.peers(other.pos_at(t), q)
                    && other.gameboard.cell(q).is_fixed() && other.gameboard.cell(q).spec_value()
                    == v);
            }
        }
    }

    /// An independent copy of this snapshot; afterwards the two may diverge
    /// without affecting each other.
    fn clone_state(&self) -> (r: Self)
        ensures
            self.state_like(r),
    {
        let mut cells: Vec<Cell> = Vec::new();
        let n_cells = self.gameboard.cells.len();
        let mut k: usize = 0;
        while k < n_cells
            invariant
                n_cells == self.gameboard.cells@.len(),
                k <= n_cells,
                cells@.len() == k,
                forall|t: int| 0 <= t < k ==> cells@[t] == self.gameboard.cells@[t],
            decreases n_cells - k,
        {
            cells.push(self.gameboard.cells[k]);
            k = k + 1;
        }
        let mut tiles: Vec<(Vec2D, CellTile)> = Vec::new();
        let n_tiles = self.tiles.len();
        let mut t: usize = 0;
        while t < n_tiles
            invariant
                n_tiles == self.n_tiles(),
                t <= n_tiles,
                tiles@.len() == t,
                forall|a: int| 0 <= a < t ==> #[trigger] tiles@[a].0 == self.pos_at(a),
                forall|a: int| 0 <= a < t ==> #[trigger] tiles@[a].1.0@ == self.tile_at(a),
            decreases n_tiles - t,
        {
            let p = self.tiles[t].0;
            let src_len = self.tiles[t].1 .0.len();
            let mut values: Vec<usize> = Vec::new();
            let mut a: usize = 0;
            while a < src_len
                invariant
                    t < self.n_tiles(),
                    src_len == self.tile_at(t as int).len(),
                    a <= src_len,
                    values@.len() == a,
                    forall|b: int| 0 <= b < a ==> values@[b] == self.tile_at(t as int)[b],
                decreases src_len - a,
            {
                values.push(self.tiles[t].1 .0[a]);
                a = a + 1;
            }
            proof {
                assert(values@ =~= self.tile_at(t as int));
            }
            tiles.push((p, CellTile(values)));
            t = t + 1;
        }
        proof {
            assert(cells@ =~= self.gameboard.cells@);
        }
        let r = WaveState {
            gameboard: GameBoard { order: self.gameboard.order, cells },
            entropy_queue: queue_clone(&self.entropy_queue),
            tiles,
        };
        r
    }

    /// Takes the frontier entry at index `i` out of both the candidate list
    /// and the scheduling queue.
    fn remove_frontier_entry(&mut self, i: usize)
        requires
            old(self).sync(),
            i < old(self).n_tiles(),
        ensures
            final(self).sync(),
            final(self).gameboard == old(self).gameboard,
            final(self).tiles@ == old(self).tiles@.remove(i as int),
    {
        let ghost s0 = *self;
        let p = self.tiles[i].0;
        self.tiles.remove(i);
        queue_remove(&mut self.entropy_queue, (p.0, p.1));
        proof {
            let s1 = *self;
            assert(s0.key_at(i as int) == (p.0, p.1));
            assert forall|t: int, tt: int|
                0 <= t < tt < s1.n_tiles() implies #[trigger] s1.pos_at(t) != #[trigger] s1.pos_at(
                tt,
            ) by {
                let t0 = if t < i as int {
                    t
                } else {
                    t + 1
                };
                let tt0 = if tt < i as int {
                    tt
                } else {
                    tt + 1
                };
                assert(s1.pos_at(t) == s0.pos_at(t0) && s1.pos_at(tt) == s0.pos_at(tt0));
                assert(s0.pos_at(t0) != s0.pos_at(tt0));
            }
            assert forall|t: int| 0 <= t < s1.n_tiles() implies s1.gameboard.in_range(
                #[trigger] s1.pos_at(t),
            ) && s1.tiles@[t].1.wf(s1.size()) by {
                let t0 = if t < i as int {
                    t
                } else {
                    t + 1
                };
                assert(s1.tiles@[t] == s0.tiles@[t0]);
                assert(0 <= t0 < s0.n_tiles());
                assert(s0.gameboard.in_range(s0.pos_at(t0)));
                assert(s0.tiles@[t0].1.wf(s0.size()));
            }
            assert forall|t: int| 0 <= t < s1.n_tiles() implies queue_entries(
                s1.entropy_queue,
            ).dom().contains(#[trigger] s1.key_at(t)) && queue_entries(s1.entropy_queue)[s1.key_at(
                t,
            )] == s1.size() - s1.tile_at(t).len() by {
                let t0 = if t < i as int {
                    t
                } else {
                    t + 1
                };
                assert(s1.tiles@[t] == s0.tiles@[t0]);
                assert(0 <= t0 < s0.n_tiles());
                assert(s0.pos_at(t0) != s0.pos_at(i as int));
                assert(s1.key_at(t) == s0.key_at(t0));
                assert(s1.key_at(t) != (p.0, p.1));
                assert(queue_entries(s0.entropy_queue).dom().contains(s0.key_at(t0)));
            }
            assert forall|k: (usize, usize)|
                queue_entries(s1.entropy_queue).dom().contains(k) implies exists|t: int|
                0 <= t < s1.n_tiles() && s1.key_at(t) == k by {
                let t0 = choose|t0: int| 0 <= t0 < s0.n_tiles() && s0.key_at(t0) == k;
                assert(k != (p.0, p.1));
                assert(t0 != i as int);
                let t = if t0 < i as int {
                    t0
                } else {
                    t0 - 1
                };
                assert(s1.pos_at(t) == s0.pos_at(t0));
                assert(s1.key_at(t) == k);
            }
        }
    }

    /// Whether the frontier entry at `i` has minimal entropy: no unresolved
    /// position holds fewer candidates.
    pub open spec fn min_entropy_at(self, i: int) -> bool {
        &&& 0 <= i < self.n_tiles()
        &&& forall|t: int|
            0 <= t < self.n_tiles() ==> self.tile_at(i).len() <= #[trigger] self.tile_at(t).len()
    }

    /// Some unresolved cell has run out of candidates: the snapshot is
    /// contradicted and must be rolled back.
    pub open spec fn spec_contradicted(self) -> bool {
        exists|i: int| 0 <= i < self.n_tiles() && self.tile_at(i).len() == 0
    }

    /// Index of a minimum-entropy frontier entry, scheduled by the queue;
    /// nothing exactly when the frontier is empty. Which of several tied
    /// entries is yielded is up to the queue's internal order.
    fn peek_min(&self) -> (r: Option<usize>)
        requires
            self.sync(),
        ensures
            (match r {
                None => self.n_tiles() == 0,
                Some(i) => self.min_entropy_at(i as int),
            }),
    {
        match queue_peek(&self.entropy_queue) {
            None => {
                proof {
                    if self.n_tiles() > 0 {
                        assert(queue_entries(self.entropy_queue).dom().contains(self.key_at(0)));
                    }
                }
                None
            },
            Some((key, priority)) => {
                let pos = Vec2D::new(key.0, key.1);
                proof {
                    let t0 = choose|t: int| 0 <= t < self.n_tiles() && self.key_at(t) == key;
                    assert(self.pos_at(t0) == pos);
                }
                match self.find_opt(pos) {
                    Some(i) => {
                        proof {
                            assert(self.key_at(i as int) == key);
                            assert forall|t: int| 0 <= t < self.n_tiles() implies self.tile_at(
                                i as int,
                            ).len() <= #[trigger] self.tile_at(t).len() by {
                                assert(queue_entries(self.entropy_queue).dom().contains(
                                    self.key_at(t),
                                ));
                                assert(queue_entries(self.entropy_queue)[self.key_at(t)]
                                    <= priority);
                            }
                        }
                        Some(i)
                    },
                    None => {
                        proof {
                            let t0 = choose|t: int|
                                0 <= t < self.n_tiles() && self.key_at(t) == key;
                            assert(self.pos_at(t0) == pos);
                            assert(false);
                        }
                        None
                    },
                }
            },
        }
    }

    /// Index of a position in the frontier, if present.
    fn find_opt(&self, pos: Vec2D) -> (r: Option<usize>)
        ensures
            (match r {
                Some(i) => i < self.n_tiles() && self.pos_at(i as int) == pos,
                None => forall|t: int| 0 <= t < self.n_tiles() ==> self.pos_at(t) != pos,
            }),
    {
        let mut i: usize = 0;
        let n = self.tiles.len();
        while i < n
            invariant
                n == self.n_tiles(),
                i <= n,
                forall|t: int| 0 <= t < i ==> self.pos_at(t) != pos,
            decreases n - i,
        {
            if self.tiles[i].0 == pos {
                return Some(i);
            }
            i = i + 1;
        }
        None
    }

    /// Removes `removing_tile` from the candidate set of `pos`, if `pos` is
    /// still unresolved, and refreshes that position's scheduling priority;
    /// a resolved position is left untouched.
    fn heuristics_on_cell(&mut self, pos: Vec2D, removing_tile: usize)
        requires
            old(self).sync(),
        ensures
            final(self).sync(),
            final(self).gameboard == old(self).gameboard,
            final(self).n_tiles() == old(self).n_tiles(),
            forall|j: int|
                0 <= j < old(self).n_tiles() ==> final(self).pos_at(j) == old(self).pos_at(j),
            forall|j: int|
                0 <= j < old(self).n_tiles() && old(self).pos_at(j) != pos
                    ==> final(self).tiles@[j] == old(self).tiles@[j],
            forall|j: int, u: usize|
                0 <= j < old(self).n_tiles() && old(self).pos_at(j) == pos
                    ==> (#[trigger] final(self).tile_at(j).contains(u)
                    <==> old(self).tile_at(j).contains(u) && u != removing_tile),
    {
        let i_opt = self.find_opt(pos);
        match i_opt {
            None => {},
            Some(i) => {
                let ghost s0 = *self;
                let n_size = self.gameboard.board_size();
                let tile_len = self.tiles[i].1 .0.len();
                let ghost tile0 = self.tile_at(i as int);
                proof {
                    assert(s0.gameboard.in_range(s0.pos_at(i as int)) && s0.tiles@[i as int].1.wf(
                        s0.size(),
                    ));
                }
                let mut next: Vec<usize> = Vec::new();
                let mut t: usize = 0;
                while t < tile_len
                    invariant
                        *self == s0,
                        s0.sync(),
                        i < s0.n_tiles(),
                        tile0 == s0.tile_at(i as int),
                        tile_len == tile0.len(),
                        forall|a: int, b: int| 0 <= a < b < tile0.len() ==> tile0[a] < tile0[b],
                        forall|a: int| 0 <= a < tile0.len() ==> 1 <= #[trigger] tile0[a] <= s0.size(),
                        t <= tile_len,
                        forall|a: int, b: int| 0 <= a < b < next@.len() ==> next@[a] < next@[b],
                        forall|a: int| 0 <= a < next@.len() ==> 1 <= #[trigger] next@[a] <= s0.size(),
                        next@.len() <= t,
                        forall|u: usize|
                            #[trigger] next@.contains(u) <==> (exists|tt: int|
                                0 <= tt < t && tile0[tt] == u) && u != removing_tile,
                        next@.len() > 0 && t < tile_len ==> next@.last() < tile0[t as int],
                    decreases tile_len - t,
                {
                    let u = self.tiles[i].1 .0[t];
                    if u != removing_tile {
                        proof {
                            assert(tile0[t as int] == u);
                            assert forall|uu: usize| #[trigger]
                                next@.push(u).contains(uu) implies (exists|tt: int|
                                0 <= tt < t + 1 && tile0[tt] == uu) && uu != removing_tile by {
                                if next@.contains(uu) {
                                } else {
                                    assert(uu == u);
                                    assert(tile0[t as int] == uu);
                                }
                            }
                            assert forall|uu: usize|
                                (exists|tt: int| 0 <= tt < t + 1 && tile0[tt] == uu) && uu
                                    != removing_tile implies #[trigger] next@.push(u).contains(
                                uu,
                            ) by {
                                let tt = choose|tt: int| 0 <= tt < t + 1 && tile0[tt] == uu;
                                if tt < t {
                                    assert(next@.contains(uu));
                                    let a = choose|a: int|
                                        0 <= a < next@.len() && next@[a] == uu;
                                    assert(next@.push(u)[a] == uu);
                                } else {
                                    assert(next@.push(u)[next@.len() as int] == uu);
                                }
                            }
                        }
                        next.push(u);
                    }
                    t = t + 1;
                }
                proof {
                    assert forall|u: usize| #[trigger]
                        next@.contains(u) <==> tile0.contains(u) && u != removing_tile by {
                        if (exists|tt: int| 0 <= tt < tile_len && tile0[tt] == u) && u
                            != removing_tile {
                            assert(next@.contains(u));
                        }
                        if next@.contains(u) {
                            let tt = choose|tt: int| 0 <= tt < tile_len && tile0[tt] == u;
                            assert(tile0[tt] == u);
                            assert(tile0.contains(u));
                        }
                        if tile0.contains(u) && u != removing_tile {
                            let tt = choose|tt: int| 0 <= tt < tile0.len() && tile0[tt] == u;
                            assert(0 <= tt < tile_len && tile0[tt] == u);
                            assert(next@.contains(u));
                        }
                    }
                    lemma_tile_len_bound(CellTile(next), s0.size());
                }
                let next_len = next.len();
                let p = self.tiles[i].0;
                proof {
                    assert(s0.key_at(i as int) == (p.0, p.1));
                    assert(queue_entries(s0.entropy_queue).dom().contains((p.0, p.1)));
                }
                self.tiles[i] = (p, CellTile(next));
                queue_set_priority(&mut self.entropy_queue, (p.0, p.1), n_size - next_len);
                proof {
                    let s1 = *self;
                    assert(s1.key_at(i as int) == (p.0, p.1));
                    assert forall|j: int, jj: int|
                        0 <= j < jj < s1.n_tiles() implies #[trigger] s1.pos_at(j)
                        != #[trigger] s1.pos_at(jj) by {
                        assert(s0.pos_at(j) != s0.pos_at(jj));
                    }
                    assert forall|k: (usize, usize)|
                        queue_entries(s1.entropy_queue).dom().contains(k) implies exists|ii: int|
                        0 <= ii < s1.n_tiles() && s1.key_at(ii) == k by {
                        let ii = choose|ii: int| 0 <= ii < s0.n_tiles() && s0.key_at(ii) == k;
                        assert(s1.key_at(ii) == k);
                    }
                    assert forall|ii: int| 0 <= ii < s1.n_tiles() implies queue_entries(
                        s1.entropy_queue,
                    ).dom().contains(#[trigger] s1.key_at(ii)) && queue_entries(s1.entropy_queue)[s1.key_at(
                        ii,
                    )] == s1.size() - s1.tile_at(ii).len() by {
                        if ii != i {
                            assert(s0.pos_at(ii) != s0.pos_at(i as int));
                            assert(s1.key_at(ii) == s0.key_at(ii));
                            assert(s1.key_at(ii) != (p.0, p.1));
                        }
                    }
                    assert forall|ii: int| 0 <= ii < s1.n_tiles() implies s1.gameboard.in_range(
                        #[trigger] s1.pos_at(ii),
                    ) && s1.tiles@[ii].1.wf(s1.size()) by {
                        assert(s0.gameboard.in_range(s0.pos_at(ii)) && s0.tiles@[ii].1.wf(
                            s0.size(),
                        ));
                        if ii != i {
                            assert(s1.tiles@[ii] == s0.tiles@[ii]);
                        }
                    }
                    assert(s1.sync());
                }
            },
        }
    }

    /// Which positions a sweep of the row and column has reached so far.
    pub open spec fn row_col_hit(pos: Vec2D, q: Vec2D, idx: int) -> bool {
        (q.1 == pos.1 && q.0 < idx) || (q.0 == pos.0 && q.1 < idx)
    }

    /// After `given_tile` is committed at `pos`, removes it as a candidate
    /// from every unresolved position in the row, the column, and the
    /// sub-box of `pos` (including `pos` itself, if still unresolved),
    /// refreshing each affected scheduling priority in place.
    fn apply_heuristics(&mut self, pos: Vec2D, given_tile: usize)
        requires
            old(self).sync(),
            old(self).gameboard.in_range(pos),
        ensures
            final(self).sync(),
            final(self).gameboard == old(self).gameboard,
            final(self).n_tiles() == old(self).n_tiles(),
            forall|j: int|
                0 <= j < old(self).n_tiles() ==> final(self).pos_at(j) == old(self).pos_at(j),
            forall|j: int|
                0 <= j < old(self).n_tiles() && !old(self).gameboard.sees(
                    pos,
                    old(self).pos_at(j),
                ) ==> final(self).tiles@[j] == old(self).tiles@[j],
            forall|j: int, u: usize|
                0 <= j < old(self).n_tiles() && old(self).gameboard.sees(pos, old(self).pos_at(j))
                    ==> (#[trigger] final(self).tile_at(j).contains(u)
                    <==> old(self).tile_at(j).contains(u) && u != given_tile),
    {
        let ghost s0 = *self;
        let n_size = self.gameboard.board_size();
        let box_positions = self.gameboard.box_cell_positions(pos);
        let mut idx: usize = 0;
        while idx < n_size
            invariant
                self.sync(),
                self.gameboard == s0.gameboard,
                s0.sync(),
                s0.gameboard.in_range(pos),
                n_size == s0.size(),
                idx <= n_size,
                self.n_tiles() == s0.n_tiles(),
                forall|j: int| 0 <= j < s0.n_tiles() ==> self.pos_at(j) == s0.pos_at(j),
                forall|j: int|
                    0 <= j < s0.n_tiles() && !Self::row_col_hit(pos, s0.pos_at(j), idx as int)
                        ==> self.tiles@[j] == s0.tiles@[j],
                forall|j: int, u: usize|
                    0 <= j < s0.n_tiles() && Self::row_col_hit(pos, s0.pos_at(j), idx as int)
                        ==> (#[trigger] self.tile_at(j).contains(u)
                        <==> s0.tile_at(j).contains(u) && u != given_tile),
            decreases n_size - idx,
        {
            let ghost sa = *self;
            let target1 = Vec2D::new(idx, pos.y());
            self.heuristics_on_cell(target1, given_tile);
            let ghost sb = *self;
            proof {
                assert forall|j: int, u: usize|
                    0 <= j < s0.n_tiles() && (Self::row_col_hit(pos, s0.pos_at(j), idx as int)
                        || s0.pos_at(j) == target1) implies (#[trigger] sb.tile_at(j).contains(u)
                    <==> s0.tile_at(j).contains(u) && u != given_tile) by {
                    if s0.pos_at(j) == target1 {
                        assert(sb.tile_at(j).contains(u) <==> sa.tile_at(j).contains(u) && u
                            != given_tile);
                        if Self::row_col_hit(pos, s0.pos_at(j), idx as int) {
                            assert(sa.tile_at(j).contains(u) <==> s0.tile_at(j).contains(u) && u
                                != given_tile);
                        } else {
                            assert(sa.tiles@[j] == s0.tiles@[j]);
                        }
                    } else {
                        assert(sb.tiles@[j] == sa.tiles@[j]);
                        assert(sa.tile_at(j).contains(u) <==> s0.tile_at(j).contains(u) && u
                            != given_tile);
                    }
                }
                assert forall|j: int|
                    0 <= j < s0.n_tiles() && !(Self::row_col_hit(pos, s0.pos_at(j), idx as int)
                        || s0.pos_at(j) == target1) implies sb.tiles@[j] == s0.tiles@[j] by {
                    assert(sb.tiles@[j] == sa.tiles@[j]);
                }
            }
            let target2 = Vec2D::new(pos.x(), idx);
            self.heuristics_on_cell(target2, given_tile);
            proof {
                let sc = *self;
                assert forall|j: int, u: usize|
                    0 <= j < s0.n_tiles() && Self::row_col_hit(pos, s0.pos_at(j), idx + 1) implies (
                #[trigger] sc.tile_at(j).contains(u) <==> s0.tile_at(j).contains(u) && u
                    != given_tile) by {
                    if s0.pos_at(j) == target2 {
                        assert(sc.tile_at(j).contains(u) <==> sb.tile_at(j).contains(u) && u
                            != given_tile);
                        if Self::row_col_hit(pos, s0.pos_at(j), idx as int) || s0.pos_at(j)
                            == target1 {
                            assert(sb.tile_at(j).contains(u) <==> s0.tile_at(j).contains(u) && u
                                != given_tile);
                        } else {
                            assert(sb.tiles@[j] == s0.tiles@[j]);
                        }
                    } else {
                        assert(sc.tiles@[j] == sb.tiles@[j]);
                        assert(Self::row_col_hit(pos, s0.pos_at(j), idx as int) || s0.pos_at(j)
                            == target1);
                        assert(sb.tile_at(j).contains(u) <==> s0.tile_at(j).contains(u) && u
                            != given_tile);
                    }
                }
                assert forall|j: int|
                    0 <= j < s0.n_tiles() && !Self::row_col_hit(pos, s0.pos_at(j), idx + 1) implies sc.tiles@[j]
                    == s0.tiles@[j] by {
                    assert(sc.tiles@[j] == sb.tiles@[j]);
                    assert(sb.tiles@[j] == s0.tiles@[j]);
                }
            }
            idx = idx + 1;
        }
        let n_box = box_positions.len();
        let mut bi: usize = 0;
        while bi < n_box
            invariant
                self.sync(),
                self.gameboard == s0.gameboard,
                s0.sync(),
                s0.gameboard.in_range(pos),
                n_size == s0.size(),
                n_box == box_positions@.len(),
                box_positions@.len() == s0.size(),
                forall|k: int|
                    0 <= k < box_positions@.len() ==> s0.gameboard.in_range(
                        #[trigger] box_positions@[k],
                    ) && s0.gameboard.same_box(pos, box_positions@[k]),
                forall|q: Vec2D|
                    s0.gameboard.in_range(q) && s0.gameboard.same_box(pos, q)
                        ==> box_positions@.contains(q),
                bi <= n_box,
                self.n_tiles() == s0.n_tiles(),
                forall|j: int| 0 <= j < s0.n_tiles() ==> self.pos_at(j) == s0.pos_at(j),
                forall|j: int|
                    0 <= j < s0.n_tiles() && !(s0.pos_at(j).1 == pos.1 || s0.pos_at(j).0 == pos.0
                        || (exists|t: int|
                        0 <= t < bi && box_positions@[t] == s0.pos_at(j)))
                        ==> self.tiles@[j] == s0.tiles@[j],
                forall|j: int, u: usize|
                    0 <= j < s0.n_tiles() && (s0.pos_at(j).1 == pos.1 || s0.pos_at(j).0 == pos.0
                        || (exists|t: int|
                        0 <= t < bi && box_positions@[t] == s0.pos_at(j)))
                        ==> (#[trigger] self.tile_at(j).contains(u)
                        <==> s0.tile_at(j).contains(u) && u != given_tile),
            decreases n_box - bi,
        {
            let ghost sa = *self;
            let target = box_positions[bi];
            self.heuristics_on_cell(target, given_tile);
            proof {
                let sb = *self;
                assert forall|j: int, u: usize|
                    0 <= j < s0.n_tiles() && (s0.pos_at(j).1 == pos.1 || s0.pos_at(j).0 == pos.0
                        || (exists|t: int|
                        0 <= t < bi + 1 && box_positions@[t] == s0.pos_at(j)))
                        implies (#[trigger] sb.tile_at(j).contains(u)
                    <==> s0.tile_at(j).contains(u) && u != given_tile) by {
                    if s0.pos_at(j) == target {
                        assert(sb.tile_at(j).contains(u) <==> sa.tile_at(j).contains(u) && u
                            != given_tile);
                        if s0.pos_at(j).1 == pos.1 || s0.pos_at(j).0 == pos.0 || (exists|t: int|
                            0 <= t < bi && box_positions@[t] == s0.pos_at(j)) {
                            assert(sa.tile_at(j).contains(u) <==> s0.tile_at(j).contains(u) && u
                                != given_tile);
                        } else {
                            assert(sa.tiles@[j] == s0.tiles@[j]);
                        }
                    } else {
                        assert(sb.tiles@[j] == sa.tiles@[j]);
                        assert(s0.pos_at(j).1 == pos.1 || s0.pos_at(j).0 == pos.0 || (exists|
                            t: int,
                        |
                            0 <= t < bi && box_positions@[t] == s0.pos_at(j)));
                        assert(sa.tile_at(j).contains(u) <==> s0.tile_at(j).contains(u) && u
                            != given_tile);
                    }
                }
                assert forall|j: int|
                    0 <= j < s0.n_tiles() && !(s0.pos_at(j).1 == pos.1 || s0.pos_at(j).0 == pos.0
                        || (exists|t: int|
                        0 <= t < bi + 1 && box_positions@[t] == s0.pos_at(j))) implies sb.tiles@[j]
                    == s0.tiles@[j] by {
                    assert(sb.tiles@[j] == sa.tiles@[j]);
                }
            }
            bi = bi + 1;
        }
        proof {
            let s1 = *self;
            assert forall|j: int|
                0 <= j < s0.n_tiles() implies ((s0.pos_at(j).1 == pos.1 || s0.pos_at(j).0 == pos.0
                || (exists|t: int|
                0 <= t < n_box && box_positions@[t] == s0.pos_at(j))) <==> s0.gameboard.sees(
                pos,
                s0.pos_at(j),
            )) by {
                let q = s0.pos_at(j);
                assert(s0.gameboard.in_range(q));
                if s0.gameboard.same_box(pos, q) {
                    assert(box_positions@.contains(q));
                }
                if exists|t: int| 0 <= t < n_box && box_positions@[t] == q {
                    let t = choose|t: int| 0 <= t < n_box && box_positions@[t] == q;
                    assert(s0.gameboard.same_box(pos, box_positions@[t]));
                }
            }
        }
    }
}

/// The three observable states of a stepping simulation.
#[derive(Clone, Copy, PartialEq, Eq, Structural, Debug)]
pub enum SolverStatus {
    Active,
    Contradicted,
    Solved,
}

/// The stepping simulation: a live propagation snapshot plus a stack of
/// rollback snapshots, one pushed per genuine branch taken.
pub struct WaveFunction {
    pub prev_frames: Vec<WaveState>,
    pub state: WaveState,
}

impl WaveFunction {
    /// Everything that holds of a reachable simulation: the live snapshot
    /// and every rollback snapshot keep the engine invariants, over legally
    /// authored boards.
    pub open spec fn wf(self) -> bool {
        &&& self.state.wfall()
        &&& self.state.gameboard.legal()
        &&& forall|t: int|
            0 <= t < self.prev_frames@.len() ==> (#[trigger] self.prev_frames@[t]).wfall()
                && self.prev_frames@[t].gameboard.legal()
    }

    /// Observable classification of the live snapshot: solved when nothing
    /// is unresolved, contradicted when some unresolved cell has no
    /// candidates left, active otherwise.
    pub open spec fn spec_status(self) -> SolverStatus {
        if self.state.n_tiles() == 0 {
            SolverStatus::Solved
        } else if self.state.spec_contradicted() {
            SolverStatus::Contradicted
        } else {
            SolverStatus::Active
        }
    }

    /// The rollback snapshot pushed at a branch: the pre-step snapshot with
    /// the tried candidate removed from the chosen cell's candidate set, and
    /// nothing else changed.
    pub open spec fn branch_snapshot(s: WaveState, snap: WaveState, i: int, v: usize) -> bool {
        &&& snap.gameboard.order == s.gameboard.order
        &&& snap.gameboard.cells@ == s.gameboard.cells@
        &&& snap.n_tiles() == s.n_tiles()
        &&& forall|t: int| 0 <= t < s.n_tiles() ==> #[trigger] snap.pos_at(t) == s.pos_at(t)
        &&& forall|t: int|
            0 <= t < s.n_tiles() && t != i ==> #[trigger] snap.tile_at(t) == s.tile_at(t)
        &&& forall|u: usize|
            #[trigger] snap.tile_at(i).contains(u) <==> s.tile_at(i).contains(u) && u != v
    }

    /// One committed step from an active simulation: a minimum-entropy
    /// frontier entry `i` was resolved to its lowest candidate, which was
    /// written to the board as a guess, removed from the frontier, and
    /// eliminated from every candidate set its cell sees; when the entry
    /// held two or more candidates, a rollback snapshot without the tried
    /// candidate was pushed first.
    pub open spec fn advance_step(pre: WaveFunction, post: WaveFunction, i: int) -> bool {
        let s = pre.state;
        let v = s.tile_at(i)[0];
        &&& s.min_entropy_at(i)
        &&& s.tile_at(i).len() > 0
        &&& post.state.gameboard.order == s.gameboard.order
        &&& post.state.gameboard.cells@ == s.gameboard.cells@.update(
            s.gameboard.flat(s.pos_at(i)),
            Cell::Guess(v),
        )
        &&& post.state.n_tiles() == s.n_tiles() - 1
        &&& forall|t: int|
            0 <= t < post.state.n_tiles() ==> #[trigger] post.state.pos_at(t) == s.pos_at(
                if t < i {
                    t
                } else {
                    t + 1
                },
            )
        &&& forall|t: int, u: usize|
            0 <= t < post.state.n_tiles() ==> (#[trigger] post.state.tile_at(t).contains(u)
                <==> s.tile_at(
                if t < i {
                    t
                } else {
                    t + 1
                },
            ).contains(u) && !(s.gameboard.sees(
                s.pos_at(i),
                s.pos_at(
                    if t < i {
                        t
                    } else {
                        t + 1
                    },
                ),
            ) && u == v))
        &&& if s.tile_at(i).len() >= 2 {
            &&& post.prev_frames@.len() == pre.prev_frames@.len() + 1
            &&& forall|t: int|
                0 <= t < pre.prev_frames@.len() ==> #[trigger] post.prev_frames@[t]
                    == pre.prev_frames@[t]
            &&& Self::branch_snapshot(s, post.prev_frames@.last(), i, v)
        } else {
            post.prev_frames@ == pre.prev_frames@
        }
    }

    /// Wraps an authored board, which must hold only legally placed givens,
    /// into a fresh simulation with an empty rollback stack.
    pub fn build(gameboard: GameBoard) -> (r: Self)
        requires
            gameboard.wf(),
            gameboard.legal(),
            forall|i: int|
                0 <= i < gameboard.cells@.len() ==> !((#[trigger] gameboard.cells@[i]) is Guess),
        ensures
            r.wf(),
            r.state.exact(),
            r.state.gameboard == gameboard,
            r.prev_frames@.len() == 0,
    {
        Self { prev_frames: Vec::new(), state: WaveState::build(gameboard) }
    }
}

impl WaveFunction {
    /// One step of the simulation. On a solved board this changes nothing
    /// and reports success; on a contradicted board it changes nothing and
    /// reports failure, asking the caller to backtrack; otherwise it commits
    /// the lowest candidate of a most-constrained cell, propagates the
    /// elimination, records a rollback snapshot if the cell had a real
    /// choice, and reports success. Stepping keeps every missing candidate
    /// explained (`exact`) on the live snapshot.
    #[verifier::rlimit(100)]
    pub fn simulate_generation(&mut self) -> (r: bool)
        requires
            old(self).wf(),
        ensures
            final(self).wf(),
            old(self).spec_status() == SolverStatus::Solved ==> r && *final(self) == *old(self),
            old(self).spec_status() == SolverStatus::Contradicted
                ==> !r && *final(self) == *old(self),
            old(self).spec_status() == SolverStatus::Active ==> r && (exists|i: int|
                #[trigger] Self::advance_step(*old(self), *final(self), i)),
            old(self).spec_status() == SolverStatus::Active && old(self).state.exact()
                ==> final(self).state.exact(),
    {
        let i_opt = self.state.peek_min();
        match i_opt {
            None => {
                true
            },
            Some(i) => {
                let ghost pre = *self;
                let ghost sp = pre.state;
                let tile_len = self.state.tiles[i].1 .0.len();
                if tile_len == 0 {
                    proof {
                        assert(sp.spec_contradicted());
                    }
                    return false;
                }
                proof {
                    assert forall|t: int|
                        0 <= t < sp.n_tiles() implies #[trigger] sp.tile_at(t).len() > 0 by {
                        assert(sp.tile_at(i as int).len() <= sp.tile_at(t).len());
                    }
                    assert(!sp.spec_contradicted());
                    assert(pre.spec_status() == SolverStatus::Active);
                }
                let pos = self.state.tiles[i].0;
                let chosen_tile = self.state.tiles[i].1 .0[0];
                proof {
                    assert(pre.wf());
                    assert(sp.sync());
                    assert((i as int) < sp.n_tiles());
                    assert(sp.tile_at(i as int).contains(sp.tile_at(i as int)[0]));
                    assert(sp.gameboard.in_range(sp.pos_at(i as int)));
                    assert(sp.tiles@[i as int].1.wf(sp.size()));
                    assert(1 <= chosen_tile <= sp.size());
                }
                if tile_len > 1 {
                    let mut cloned_state = self.state.clone_state();
                    let ghost c0 = cloned_state;
                    proof {
                        sp.lemma_like_transfers(c0);
                    }
                    cloned_state.heuristics_on_cell(pos, chosen_tile);
                    proof {
                        let snap = cloned_state;
                        assert forall|t: int|
                            0 <= t < sp.n_tiles() implies #[trigger] snap.pos_at(t) == sp.pos_at(
                            t,
                        ) by {
                            assert(snap.pos_at(t) == c0.pos_at(t));
                            assert(c0.pos_at(t) == sp.pos_at(t));
                        }
                        assert forall|t: int|
                            0 <= t < sp.n_tiles() && t != i implies #[trigger] snap.tile_at(t)
                            == sp.tile_at(t) by {
                            assert(sp.pos_at(t) != sp.pos_at(i as int));
                            assert(c0.pos_at(t) == sp.pos_at(t) && c0.pos_at(i as int)
                                == sp.pos_at(i as int));
                            assert(c0.pos_at(t) != pos);
                            assert(snap.tiles@[t] == c0.tiles@[t]);
                            assert(c0.tile_at(t) == sp.tile_at(t));
                        }
                        assert forall|u: usize| #[trigger]
                            snap.tile_at(i as int).contains(u) <==> sp.tile_at(i as int).contains(
                            u,
                        ) && u != chosen_tile by {
                            assert(c0.pos_at(i as int) == pos);
                            assert(snap.tile_at(i as int).contains(u) <==> c0.tile_at(
                                i as int,
                            ).contains(u) && u != chosen_tile);
                            assert(c0.tile_at(i as int) == sp.tile_at(i as int));
                        }
                        assert(Self::branch_snapshot(sp, snap, i as int, chosen_tile));
                        // the snapshot keeps every invariant of the live state
                        assert forall|p: Vec2D| snap.gameboard.in_range(p) implies (
                        #[trigger] snap.in_frontier(p) <==> snap.gameboard.cell(p) is Empty) by {
                            if sp.in_frontier(p) {
                                let t = choose|t: int|
                                    0 <= t < sp.n_tiles() && sp.pos_at(t) == p;
                                assert(snap.pos_at(t) == p);
                            }
                            if snap.in_frontier(p) {
                                let t = choose|t: int|
                                    0 <= t < snap.n_tiles() && snap.pos_at(t) == p;
                                assert(sp.pos_at(t) == p);
                            }
                            assert(snap.gameboard.cell(p) == sp.gameboard.cell(p));
                            assert(sp.in_frontier(p) <==> sp.gameboard.cell(p) is Empty);
                        }
                        assert forall|t: int, q: Vec2D|
                            0 <= t < snap.n_tiles() && snap.gameboard.in_range(q)
                                && #[trigger] snap.gameboard.peers(snap.pos_at(t), q)
                                && snap.gameboard.cell(q).is_fixed() implies !snap.tile_at(
                            t,
                        ).contains(snap.gameboard.cell(q).spec_value()) by {
                            assert(sp.gameboard.peers(sp.pos_at(t), q));
                            assert(snap.gameboard.cell(q) == sp.gameboard.cell(q));
                            let u = sp.gameboard.cell(q).spec_value();
                            assert(!sp.tile_at(t).contains(u));
                            if t == i {
                                assert(snap.tile_at(t).contains(u) ==> sp.tile_at(t).contains(u));
                            } else {
                                assert(snap.tile_at(t) == sp.tile_at(t));
                            }
                        }
                        assert forall|p: Vec2D, q: Vec2D|
                            snap.gameboard.in_range(p) && snap.gameboard.in_range(q)
                                && #[trigger] snap.gameboard.peers(p, q) && snap.gameboard.cell(
                                p,
                            ).is_fixed() && snap.gameboard.cell(q).is_fixed() implies snap.gameboard.cell(
                            p,
                        ).spec_value() != snap.gameboard.cell(q).spec_value() by {
                            assert(sp.gameboard.peers(p, q));
                            assert(snap.gameboard.cell(p) == sp.gameboard.cell(p));
                            assert(snap.gameboard.cell(q) == sp.gameboard.cell(q));
                        }
                        assert(snap.wfall() && snap.gameboard.legal());
                    }
                    self.prev_frames.push(cloned_state);
                }
                let ghost frames1 = self.prev_frames@;
                self.state.gameboard.set_cell(pos, Cell::Guess(chosen_tile));
                proof {
                    let sa = self.state;
                    assert forall|t: int| 0 <= t < sa.n_tiles() implies sa.gameboard.in_range(
                        #[trigger] sa.pos_at(t),
                    ) && sa.tiles@[t].1.wf(sa.size()) by {
                        assert(sa.pos_at(t) == sp.pos_at(t));
                        assert(sp.gameboard.in_range(sp.pos_at(t)));
                        assert(sp.tiles@[t].1.wf(sp.size()));
                        assert(sa.tiles@[t] == sp.tiles@[t]);
                        assert(sa.size() == sp.size());
                    }
                    assert forall|t: int, tt: int|
                        0 <= t < tt < sa.n_tiles() implies #[trigger] sa.pos_at(t)
                        != #[trigger] sa.pos_at(tt) by {
                        assert(sa.pos_at(t) == sp.pos_at(t) && sa.pos_at(tt) == sp.pos_at(tt));
                        assert(sp.pos_at(t) != sp.pos_at(tt));
                    }
                    assert forall|t: int| 0 <= t < sa.n_tiles() implies queue_entries(
                        sa.entropy_queue,
                    ).dom().contains(#[trigger] sa.key_at(t)) && queue_entries(sa.entropy_queue)[sa.key_at(
                        t,
                    )] == sa.size() - sa.tile_at(t).len() by {
                        assert(sa.key_at(t) == sp.key_at(t));
                        assert(sa.tile_at(t) == sp.tile_at(t));
                    }
                    assert forall|k: (usize, usize)|
                        queue_entries(sa.entropy_queue).dom().contains(k) implies exists|t: int|
                        0 <= t < sa.n_tiles() && sa.key_at(t) == k by {
                        let t = choose|t: int| 0 <= t < sp.n_tiles() && sp.key_at(t) == k;
                        assert(sa.key_at(t) == k);
                    }
                    assert(sa.sync());
                }
                self.state.remove_frontier_entry(i);
                self.state.apply_heuristics(pos, chosen_tile);
                proof {
                    let ghost post = *self;
                    let ghost s3 = post.state;
                    let v = chosen_tile;
                    let ip = i as int;
                    crate::board::lemma_flat_in_bounds(sp.gameboard, pos);
                    // positions of the remaining frontier, relative to the pre state
                    assert forall|t: int|
                        0 <= t < s3.n_tiles() implies #[trigger] s3.pos_at(t) == sp.pos_at(
                        if t < ip {
                            t
                        } else {
                            t + 1
                        },
                    ) by {}
                    assert forall|t: int, u: usize|
                        0 <= t < s3.n_tiles() implies (#[trigger] s3.tile_at(t).contains(u)
                        <==> sp.tile_at(
                        if t < ip {
                            t
                        } else {
                            t + 1
                        },
                    ).contains(u) && !(sp.gameboard.sees(
                        sp.pos_at(ip),
                        sp.pos_at(
                            if t < ip {
                                t
                            } else {
                                t + 1
                            },
                        ),
                    ) && u == v)) by {
                        let t0 = if t < ip {
                            t
                        } else {
                            t + 1
                        };
                        assert(sp.pos_at(t0) == s3.pos_at(t));
                    }
                    assert(Self::advance_step(pre, post, ip));
                    // frontier-board consistency of the stepped state
                    assert forall|p: Vec2D| s3.gameboard.in_range(p) implies (
                    #[trigger] s3.in_frontier(p) <==> s3.gameboard.cell(p) is Empty) by {
                        if p == pos {
                            assert(s3.gameboard.cell(p) == Cell::Guess(v));
                            if s3.in_frontier(p) {
                                let t = choose|t: int|
                                    0 <= t < s3.n_tiles() && s3.pos_at(t) == p;
                                let t0 = if t < ip {
                                    t
                                } else {
                                    t + 1
                                };
                                assert(sp.pos_at(t0) == p && sp.pos_at(ip) == p && t0 != ip);
                                assert(false);
                            }
                        } else {
                            crate::board::lemma_flat_in_bounds(sp.gameboard, p);
                            crate::board::lemma_flat_injective(sp.gameboard, p, pos);
                            assert(s3.gameboard.cell(p) == sp.gameboard.cell(p));
                            if s3.in_frontier(p) {
                                let t = choose|t: int|
                                    0 <= t < s3.n_tiles() && s3.pos_at(t) == p;
                                let t0 = if t < ip {
                                    t
                                } else {
                                    t + 1
                                };
                                assert(sp.pos_at(t0) == p);
                                assert(sp.in_frontier(p));
                            }
                            if sp.gameboard.cell(p) is Empty {
                                assert(sp.in_frontier(p));
                                let t0 = choose|t0: int|
                                    0 <= t0 < sp.n_tiles() && sp.pos_at(t0) == p;
                                assert(t0 != ip);
                                let t = if t0 < ip {
                                    t0
                                } else {
                                    t0 - 1
                                };
                                assert(s3.pos_at(t) == p);
                                assert(s3.in_frontier(p));
                            }
                        }
                    }
                    // candidate soundness of the stepped state
                    assert forall|t: int, q: Vec2D|
                        0 <= t < s3.n_tiles() && s3.gameboard.in_range(q)
                            && #[trigger] s3.gameboard.peers(s3.pos_at(t), q)
                            && s3.gameboard.cell(q).is_fixed() implies !s3.tile_at(t).contains(
                        s3.gameboard.cell(q).spec_value(),
                    ) by {
                        let t0 = if t < ip {
                            t
                        } else {
                            t + 1
                        };
                        assert(sp.pos_at(t0) == s3.pos_at(t));
                        assert(sp.gameboard.in_range(sp.pos_at(t0)));
                        if q == pos {
                            assert(s3.gameboard.cell(q) == Cell::Guess(v));
                            assert(sp.gameboard.sees(sp.pos_at(ip), sp.pos_at(t0)));
                            assert(!s3.tile_at(t).contains(v));
                        } else {
                            crate::board::lemma_flat_in_bounds(sp.gameboard, q);
                                crate::board::lemma_flat_injective(sp.gameboard, q, pos);
                            assert(s3.gameboard.cell(q) == sp.gameboard.cell(q));
                            let u = sp.gameboard.cell(q).spec_value();
                            assert(sp.gameboard.peers(sp.pos_at(t0), q));
                            assert(!sp.tile_at(t0).contains(u));
                            assert(!s3.tile_at(t).contains(u));
                        }
                    }
                    // legality of the stepped board
                    assert forall|p: Vec2D, q: Vec2D|
                        s3.gameboard.in_range(p) && s3.gameboard.in_range(q)
                            && #[trigger] s3.gameboard.peers(p, q) && s3.gameboard.cell(
                            p,
                        ).is_fixed() && s3.gameboard.cell(q).is_fixed() implies s3.gameboard.cell(
                        p,
                    ).spec_value() != s3.gameboard.cell(q).spec_value() by {
                        if p != pos && q != pos {
                            crate::board::lemma_flat_in_bounds(sp.gameboard, p);
                            crate::board::lemma_flat_injective(sp.gameboard, p, pos);
                            crate::board::lemma_flat_in_bounds(sp.gameboard, q);
                                crate::board::lemma_flat_injective(sp.gameboard, q, pos);
                            assert(s3.gameboard.cell(p) == sp.gameboard.cell(p));
                            assert(s3.gameboard.cell(q) == sp.gameboard.cell(q));
                            assert(sp.gameboard.peers(p, q));
                        } else if p == pos {
                            crate::board::lemma_flat_in_bounds(sp.gameboard, q);
                                crate::board::lemma_flat_injective(sp.gameboard, q, pos);
                            assert(s3.gameboard.cell(q) == sp.gameboard.cell(q));
                            assert(sp.gameboard.peers(sp.pos_at(ip), q));
                            assert(!sp.tile_at(ip).contains(
                                sp.gameboard.cell(q).spec_value(),
                            ));
                            assert(sp.tile_at(ip).contains(v));
                        } else {
                            crate::board::lemma_flat_in_bounds(sp.gameboard, p);
                            crate::board::lemma_flat_injective(sp.gameboard, p, pos);
                            assert(s3.gameboard.cell(p) == sp.gameboard.cell(p));
                            assert(sp.gameboard.peers(sp.pos_at(ip), p));
                            assert(!sp.tile_at(ip).contains(
                                sp.gameboard.cell(p).spec_value(),
                            ));
                            assert(sp.tile_at(ip).contains(v));
                        }
                    }
                    // rollback snapshots are untouched or extended by one
                    assert forall|t: int|
                        0 <= t < post.prev_frames@.len() implies (
                        #[trigger] post.prev_frames@[t]).wfall()
                            && post.prev_frames@[t].gameboard.legal() by {
                        if t < pre.prev_frames@.len() {
                            assert(post.prev_frames@[t] == pre.prev_frames@[t]);
                        }
                    }
                    // exactness carries over to the stepped state
                    if sp.exact() {
                        assert forall|t: int, u: usize|
                            0 <= t < s3.n_tiles() && 1 <= u <= s3.size() && !(
                            #[trigger] s3.tile_at(t).contains(u)) implies exists|q: Vec2D|
                            s3.gameboard.in_range(q) && s3.gameboard.peers(s3.pos_at(t), q)
                                && s3.gameboard.cell(q).is_fixed() && s3.gameboard.cell(
                                q,
                            ).spec_value() == u by {
                            let t0 = if t < ip {
                                t
                            } else {
                                t + 1
                            };
                            assert(sp.pos_at(t0) == s3.pos_at(t));
                            if sp.tile_at(t0).contains(u) {
                                assert(sp.gameboard.sees(sp.pos_at(ip), sp.pos_at(t0)) && u == v);
                                assert(sp.pos_at(t0) != sp.pos_at(ip));
                                assert(s3.gameboard.peers(s3.pos_at(t), pos));
                                assert(s3.gameboard.cell(pos) == Cell::Guess(v));
                                assert(s3.gameboard.in_range(pos) && s3.gameboard.peers(
                                    s3.pos_at(t),
                                    pos,
                                ) && s3.gameboard.cell(pos).is_fixed() && s3.gameboard.cell(
                                    pos,
                                ).spec_value() == u);
                            } else {
                                assert(!sp.tile_at(t0).contains(u));
                                let q = choose|q: Vec2D|
                                    sp.gameboard.in_range(q) && sp.gameboard.peers(
                                        sp.pos_at(t0),
                                        q,
                                    ) && sp.gameboard.cell(q).is_fixed() && sp.gameboard.cell(
                                        q,
                                    ).spec_value() == u;
                                assert(sp.pos_at(ip) == pos);
                                assert(sp.in_frontier(pos));
                                assert(sp.gameboard.cell(pos) is Empty);
                                assert(q != pos);
                                crate::board::lemma_flat_in_bounds(sp.gameboard, q);
                                crate::board::lemma_flat_injective(sp.gameboard, q, pos);
                                assert(s3.gameboard.cell(q) == sp.gameboard.cell(q));
                                assert(s3.gameboard.in_range(q) && s3.gameboard.peers(
                                    s3.pos_at(t),
                                    q,
                                ) && s3.gameboard.cell(q).is_fixed() && s3.gameboard.cell(
                                    q,
                                ).spec_value() == u);
                            }
                        }
                    }
                }
                true
            },
        }
    }
}

impl WaveFunction {
    /// Rolls back to the latest snapshot, but only when the simulation is
    /// contradicted; in any other state this is a no-op reporting `false`
    /// and popping nothing. A contradicted simulation must still hold a
    /// snapshot to return to.
    pub fn backtrack_prev_frame(&mut self) -> (r: bool)
        requires
            old(self).wf(),
            old(self).spec_status() == SolverStatus::Contradicted
                ==> old(self).prev_frames@.len() > 0,
        ensures
            final(self).wf(),
            old(self).spec_status() == SolverStatus::Contradicted ==> r && final(self).state
                == old(self).prev_frames@.last() && final(self).prev_frames@
                == old(self).prev_frames@.drop_last(),
            old(self).spec_status() != SolverStatus::Contradicted
                ==> !r && *final(self) == *old(self),
    {
        let ghost pre = *self;
        let i_opt = self.state.peek_min();
        match i_opt {
            None => false,
            Some(i) => {
                if self.state.tiles[i].1 .0.len() == 0 {
                    proof {
                        assert(pre.state.spec_contradicted());
                    }
                    match self.prev_frames.pop() {
                        Some(frame) => {
                            self.state = frame;
                            proof {
                                let last = pre.prev_frames@.len() - 1;
                                assert(pre.prev_frames@[last].wfall());
                                assert forall|t: int|
                                    0 <= t < self.prev_frames@.len() implies (
                                #[trigger] self.prev_frames@[t]).wfall()
                                    && self.prev_frames@[t].gameboard.legal() by {
                                    assert(self.prev_frames@[t] == pre.prev_frames@[t]);
                                }
                            }
                            true
                        },
                        None => {
                            proof {
                                assert(false);
                            }
                            false
                        },
                    }
                } else {
                    proof {
                        assert forall|t: int|
                            0 <= t < pre.state.n_tiles() implies #[trigger] pre.state.tile_at(
                            t,
                        ).len() > 0 by {
                            assert(pre.state.tile_at(i as int).len() <= pre.state.tile_at(
                                t,
                            ).len());
                        }
                        assert(!pre.state.spec_contradicted());
                    }
                    false
                }
            },
        }
    }

    /// Rolls back to the latest snapshot unconditionally. With no snapshot
    /// left to return to the call fails: it reports `false` and changes
    /// nothing.
    pub fn force_backtrack_prev_frame(&mut self) -> (r: bool)
        requires
            old(self).wf(),
        ensures
            final(self).wf(),
            old(self).prev_frames@.len() > 0 ==> r && final(self).state
                == old(self).prev_frames@.last() && final(self).prev_frames@
                == old(self).prev_frames@.drop_last(),
            old(self).prev_frames@.len() == 0 ==> !r && *final(self) == *old(self),
    {
        let ghost pre = *self;
        if self.prev_frames.len() == 0 {
            return false;
        }
        match self.prev_frames.pop() {
            Some(frame) => {
                self.state = frame;
                proof {
                    let last = pre.prev_frames@.len() - 1;
                    assert(pre.prev_frames@[last].wfall());
                    assert forall|t: int|
                        0 <= t < self.prev_frames@.len() implies (
                    #[trigger] self.prev_frames@[t]).wfall()
                        && self.prev_frames@[t].gameboard.legal() by {
                        assert(self.prev_frames@[t] == pre.prev_frames@[t]);
                    }
                }
                true
            },
            None => {
                proof {
                    assert(false);
                }
                false
            },
        }
    }

    /// The current classification of the simulation: solved, contradicted,
    /// or still actively solvable.
    pub fn status(&self) -> (r: SolverStatus)
        requires
            self.wf(),
        ensures
            r == self.spec_status(),
    {
        match self.state.peek_min() {
            None => SolverStatus::Solved,
            Some(i) => {
                if self.state.tiles[i].1 .0.len() == 0 {
                    proof {
                        assert(self.state.spec_contradicted());
                    }
                    SolverStatus::Contradicted
                } else {
                    proof {
                        assert forall|t: int|
                            0 <= t < self.state.n_tiles() implies #[trigger] self.state.tile_at(
                            t,
                        ).len() > 0 by {
                            assert(self.state.tile_at(i as int).len() <= self.state.tile_at(
                                t,
                            ).len());
                        }
                        assert(!self.state.spec_contradicted());
                    }
                    SolverStatus::Active
                }
            },
        }
    }

    /// How many cells are still unresolved.
    pub fn remaining(&self) -> (r: usize)
        ensures
            r == self.state.n_tiles(),
    {
        self.state.tiles.len()
    }

    /// The candidate values still legal at `pos`, if `pos` is unresolved.
    pub fn candidates_at(&self, pos: Vec2D) -> (r: Option<Vec<usize>>)
        ensures
            (match r {
                None => !self.state.in_frontier(pos),
                Some(v) => exists|t: int|
                    0 <= t < self.state.n_tiles() && #[trigger] self.state.pos_at(t) == pos
                        && v@ == self.state.tile_at(t),
            }),
    {
        match self.state.find_opt(pos) {
            None => {
                proof {
                    if self.state.in_frontier(pos) {
                        let t = choose|t: int|
                            0 <= t < self.state.n_tiles() && self.state.pos_at(t) == pos;
                        assert(false);
                    }
                }
                None
            },
            Some(i) => {
                let src_len = self.state.tiles[i].1 .0.len();
                let mut values: Vec<usize> = Vec::new();
                let mut a: usize = 0;
                while a < src_len
                    invariant
                        i < self.state.n_tiles(),
                        src_len == self.state.tile_at(i as int).len(),
                        a <= src_len,
                        values@.len() == a,
                        forall|b: int|
                            0 <= b < a ==> values@[b] == self.state.tile_at(i as int)[b],
                    decreases src_len - a,
                {
                    values.push(self.state.tiles[i].1 .0[a]);
                    a = a + 1;
                }
                proof {
                    assert(values@ =~= self.state.tile_at(i as int));
                }
                Some(values)
            },
        }
    }
}

/// Row, column, and sub-box uniqueness at the end of a run: a solved
/// simulation leaves a fully committed board on which no two peer cells
/// carry equal values.
pub proof fn lemma_solved_board_valid(sim: WaveFunction)
    requires
        sim.wf(),
        sim.spec_status() == SolverStatus::Solved,
    ensures
        sim.state.gameboard.full(),
        sim.state.gameboard.legal(),
{
    let b = sim.state.gameboard;
    assert forall|c: int| 0 <= c < b.cells@.len() implies (#[trigger] b.cells@[c]).is_fixed() by {
        crate::board::lemma_unflat(b, c);
        let p = choose|p: Vec2D| b.in_range(p) && b.flat(p) == c;
        if b.cells@[c] is Empty {
            assert(b.cell(p) is Empty);
            assert(sim.state.in_frontier(p));
            let t = choose|t: int|
                0 <= t < sim.state.n_tiles() && sim.state.pos_at(t) == p;
            assert(false);
        }
    }
}

/// Frontier-board consistency: at every reachable snapshot, a position is
/// unresolved in the frontier exactly when its board cell is unresolved.
pub proof fn lemma_frontier_board_consistency(s: WaveState)
    requires
        s.wfall(),
    ensures
        forall|p: Vec2D|
            s.gameboard.in_range(p) ==> (#[trigger] s.in_frontier(p) <==> s.gameboard.cell(
                p,
            ) is Empty),
{
}

/// Candidate exactness: on a snapshot where every missing candidate is
/// explained, a value is a candidate of an unresolved cell exactly when no
/// peer of that cell has committed it.
pub proof fn lemma_candidate_exactness(s: WaveState)
    requires
        s.wfall(),
        s.exact(),
    ensures
        forall|t: int, v: usize|
            0 <= t < s.n_tiles() && 1 <= v <= s.size() ==> ((#[trigger] s.tile_at(t).contains(v))
                <==> !(exists|q: Vec2D|
                s.gameboard.in_range(q) && s.gameboard.peers(s.pos_at(t), q) && s.gameboard.cell(
                    q,
                ).is_fixed() && s.gameboard.cell(q).spec_value() == v)),
{
    assert forall|t: int, v: usize|
        0 <= t < s.n_tiles() && 1 <= v <= s.size() implies ((#[trigger] s.tile_at(t).contains(v))
        <==> !(exists|q: Vec2D|
        s.gameboard.in_range(q) && s.gameboard.peers(s.pos_at(t), q) && s.gameboard.cell(
            q,
        ).is_fixed() && s.gameboard.cell(q).spec_value() == v)) by {
        if s.tile_at(t).contains(v) {
            if exists|q: Vec2D|
                s.gameboard.in_range(q) && s.gameboard.peers(s.pos_at(t), q) && s.gameboard.cell(
                    q,
                ).is_fixed() && s.gameboard.cell(q).spec_value() == v {
                let q = choose|q: Vec2D|
                    s.gameboard.in_range(q) && s.gameboard.peers(s.pos_at(t), q)
                        && s.gameboard.cell(q).is_fixed() && s.gameboard.cell(q).spec_value()
                        == v;
                assert(!s.tile_at(t).contains(s.gameboard.cell(q).spec_value()));
                assert(false);
            }
        }
    }
}

/// Backtrack reversibility: advancing through a genuine branch and then
/// forcing a rollback restores the board and the set of unresolved
/// positions exactly; every candidate set is restored too, except at the
/// stepped cell, which has exactly the tried value removed.
pub proof fn lemma_backtrack_reversibility(
    pre: WaveFunction,
    mid: WaveFunction,
    post: WaveFunction,
    i: int,
)
    requires
        pre.wf(),
        WaveFunction::advance_step(pre, mid, i),
        pre.state.tile_at(i).len() >= 2,
        mid.prev_frames@.len() > 0,
        post.state == mid.prev_frames@.last(),
        post.prev_frames@ == mid.prev_frames@.drop_last(),
    ensures
        post.state.gameboard.order == pre.state.gameboard.order,
        post.state.gameboard.cells@ == pre.state.gameboard.cells@,
        post.state.n_tiles() == pre.state.n_tiles(),
        forall|t: int|
            0 <= t < pre.state.n_tiles() ==> #[trigger] post.state.pos_at(t) == pre.state.pos_at(
                t,
            ),
        forall|t: int|
            0 <= t < pre.state.n_tiles() && t != i ==> #[trigger] post.state.tile_at(t)
                == pre.state.tile_at(t),
        forall|u: usize|
            #[trigger] post.state.tile_at(i).contains(u) <==> pre.state.tile_at(i).contains(u)
                && u != pre.state.tile_at(i)[0],
        post.prev_frames@ == pre.prev_frames@,
{
    assert(post.state == mid.prev_frames@[mid.prev_frames@.len() - 1]);
    assert(WaveFunction::branch_snapshot(
        pre.state,
        mid.prev_frames@.last(),
        i,
        pre.state.tile_at(i)[0],
    ));
    assert forall|t: int|
        0 <= t < post.prev_frames@.len() implies #[trigger] post.prev_frames@[t]
        == pre.prev_frames@[t] by {
        assert(post.prev_frames@[t] == mid.prev_frames@[t]);
    }
    assert(post.prev_frames@ =~= pre.prev_frames@);
}

} // verus!
