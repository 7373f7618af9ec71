//! The mathematical model of a board, what a move does to it, and the laws
//! that moves obey.

use vstd::prelude::*;

use crate::board::Cell;
use crate::color::Color;

verus! {

/// A board as the contracts see it: its cells in row-major order and its size.
pub ghost struct BoardView {
    pub cells: Seq<Cell>,
    pub width: nat,
    pub height: nat,
}

/// Number of flooded cells in `cells`.
pub open spec fn flooded_count(cells: Seq<Cell>) -> nat
    decreases cells.len(),
{
    if cells.len() == 0 {
        0
    } else {
        flooded_count(cells.drop_last()) + if cells.last().is_flooded {
            1nat
        } else {
            0nat
        }
    }
}

impl BoardView {
    /// A non-empty grid with one cell per position.
    pub open spec fn wf(self) -> bool {
        &&& self.width > 0
        &&& self.height > 0
        &&& self.cells.len() == self.width * self.height
    }

    pub open spec fn in_bounds(self, i: int) -> bool {
        0 <= i < self.cells.len()
    }

    pub open spec fn flooded(self, i: int) -> bool {
        self.cells[i].is_flooded
    }

    pub open spec fn color(self, i: int) -> Color {
        self.cells[i].color
    }

    /// Column of index `i`.
    pub open spec fn col(self, i: int) -> int {
        i % (self.width as int)
    }

    /// Row of index `i`.
    pub open spec fn row(self, i: int) -> int {
        i / (self.width as int)
    }

    /// Cells `i` and `j` are orthogonal neighbors on the grid.
    pub open spec fn adjacent(self, i: int, j: int) -> bool {
        &&& self.in_bounds(i)
        &&& self.in_bounds(j)
        &&& {
            ||| self.row(i) == self.row(j) && self.col(i) == self.col(j) + 1
            ||| self.row(i) == self.row(j) && self.col(j) == self.col(i) + 1
            ||| self.col(i) == self.col(j) && self.row(i) == self.row(j) + 1
            ||| self.col(i) == self.col(j) && self.row(j) == self.row(i) + 1
        }
    }

    /// Cell `i` is flooded, or is joined to a flooded cell by a path of at most
    /// `k` steps between adjacent cells, every cell after the first of color `c`.
    pub open spec fn reached(self, c: Color, i: int, k: nat) -> bool
        decreases k,
    {
        if k == 0 {
            self.in_bounds(i) && self.flooded(i)
        } else {
            ||| self.reached(c, i, (k - 1) as nat)
            ||| {
                &&& self.in_bounds(i)
                &&& self.color(i) == c
                &&& exists|j: int| #[trigger]
                    self.adjacent(j, i) && self.reached(c, j, (k - 1) as nat)
            }
        }
    }

    /// Cell `i` can be reached from the flooded region through cells of color `c`.
    pub open spec fn reachable(self, c: Color, i: int) -> bool {
        exists|k: nat| self.reached(c, i, k)
    }

    /// No flooded cell has an unflooded neighbor of color `c`.
    pub open spec fn closed_for(self, c: Color) -> bool {
        forall|i: int, j: int|
            #[trigger] self.adjacent(i, j) && self.flooded(i) && !self.flooded(j) ==> self.color(j)
                != c
    }

    /// The flooded region has color `c` and cannot grow through color `c`.
    pub open spec fn saturated(self, c: Color) -> bool {
        &&& forall|i: int| self.in_bounds(i) && self.flooded(i) ==> #[trigger] self.color(i) == c
        &&& self.closed_for(c)
    }

    /// `post` is the board that a move to color `c` makes of `self`: the
    /// flooded cells take color `c`, every other cell keeps its color, and
    /// the flooded region becomes the cells reachable from it through color `c`.
    pub open spec fn moved_to(self, c: Color, post: BoardView) -> bool {
        &&& post.width == self.width
        &&& post.height == self.height
        &&& post.cells.len() == self.cells.len()
        &&& forall|i: int|
            self.in_bounds(i) ==> #[trigger] post.color(i) == if self.flooded(i) {
                c
            } else {
                self.color(i)
            }
        &&& forall|i: int| self.in_bounds(i) && self.flooded(i) ==> #[trigger] post.flooded(i)
        &&& forall|i: int| self.in_bounds(i) && #[trigger] post.flooded(i) ==> self.reachable(c, i)
        &&& post.closed_for(c)
    }
}

/// A flooded cell is reached in any number of steps.
pub proof fn lemma_flooded_is_reached(v: BoardView, c: Color, i: int, k: nat)
    requires
        v.in_bounds(i),
        v.flooded(i),
    ensures
        v.reached(c, i, k),
    decreases k,
{
    if k > 0 {
        lemma_flooded_is_reached(v, c, i, (k - 1) as nat);
    }
}

/// Reachability through color `c` does not depend on the colors of flooded cells.
pub proof fn lemma_reached_ignores_flooded_colors(
    a: BoardView,
    b: BoardView,
    c: Color,
    i: int,
    k: nat,
)
    requires
        a.width == b.width,
        a.cells.len() == b.cells.len(),
        forall|x: int| a.in_bounds(x) ==> #[trigger] a.flooded(x) == b.flooded(x),
        forall|x: int| a.in_bounds(x) && !a.flooded(x) ==> #[trigger] a.color(x) == b.color(x),
    ensures
        a.reached(c, i, k) == b.reached(c, i, k),
    decreases k,
{
    if k > 0 {
        if a.in_bounds(i) && a.flooded(i) {
            lemma_flooded_is_reached(a, c, i, k);
            lemma_flooded_is_reached(b, c, i, k);
        } else {
            let k1 = (k - 1) as nat;
            lemma_reached_ignores_flooded_colors(a, b, c, i, k1);
            assert forall|j: int| #[trigger]
                a.adjacent(j, i) && a.reached(c, j, k1) implies b.adjacent(j, i) && b.reached(
                c,
                j,
                k1,
            ) by {
                lemma_reached_ignores_flooded_colors(a, b, c, j, k1);
            }
            assert forall|j: int| #[trigger]
                b.adjacent(j, i) && b.reached(c, j, k1) implies a.adjacent(j, i) && a.reached(
                c,
                j,
                k1,
            ) by {
                lemma_reached_ignores_flooded_colors(a, b, c, j, k1);
            }
        }
    }
}

/// The number of flooded cells is at most the number of cells.
pub proof fn lemma_flooded_count_bound(cells: Seq<Cell>)
    ensures
        flooded_count(cells) <= cells.len(),
    decreases cells.len(),
{
    if cells.len() > 0 {
        lemma_flooded_count_bound(cells.drop_last());
    }
}

/// Counting the flooded cells of a prefix one cell further.
pub proof fn lemma_flooded_count_prefix(cells: Seq<Cell>, i: int)
    requires
        0 <= i < cells.len(),
    ensures
        flooded_count(cells.take(i + 1)) == flooded_count(cells.take(i)) + if cells[i].is_flooded {
            1nat
        } else {
            0nat
        },
{
    assert(cells.take(i + 1).drop_last() =~= cells.take(i));
}

/// Flooding one unflooded cell adds one to the count.
pub proof fn lemma_flooded_count_flood(cells: Seq<Cell>, j: int, cell: Cell)
    requires
        0 <= j < cells.len(),
        !cells[j].is_flooded,
        cell.is_flooded,
    ensures
        flooded_count(cells.update(j, cell)) == flooded_count(cells) + 1,
    decreases cells.len(),
{
    let u = cells.update(j, cell);
    if j == cells.len() - 1 {
        assert(u.drop_last() =~= cells.drop_last());
    } else {
        assert(u.drop_last() =~= cells.drop_last().update(j, cell));
        lemma_flooded_count_flood(cells.drop_last(), j, cell);
    }
}

/// A cell that can be reached from the flooded region is flooded after the move.
pub proof fn lemma_reached_is_flooded_after(pre: BoardView, c: Color, post: BoardView, i: int, k: nat)
    requires
        pre.moved_to(c, post),
        pre.reached(c, i, k),
    ensures
        post.flooded(i),
    decreases k,
{
    if k > 0 {
        let k1 = (k - 1) as nat;
        if pre.reached(c, i, k1) {
            lemma_reached_is_flooded_after(pre, c, post, i, k1);
        } else {
            let j = choose|j: int| #[trigger] pre.adjacent(j, i) && pre.reached(c, j, k1);
            lemma_reached_is_flooded_after(pre, c, post, j, k1);
            assert(post.adjacent(j, i));
            if !post.flooded(i) {
                assert(post.color(i) == pre.color(i));
            }
        }
    }
}

/// A cell reached through color `c` that is not flooded has color `c`.
pub proof fn lemma_reached_unflooded_has_color(v: BoardView, c: Color, i: int, k: nat)
    requires
        v.reached(c, i, k),
        !v.flooded(i),
    ensures
        v.color(i) == c,
    decreases k,
{
    if k > 0 && v.reached(c, i, (k - 1) as nat) {
        lemma_reached_unflooded_has_color(v, c, i, (k - 1) as nat);
    }
}

/// On a board saturated for `c`, every cell reached through `c` is already flooded.
pub proof fn lemma_saturated_reached_is_flooded(v: BoardView, c: Color, i: int, k: nat)
    requires
        v.saturated(c),
        v.reached(c, i, k),
    ensures
        v.flooded(i),
    decreases k,
{
    if k > 0 {
        let k1 = (k - 1) as nat;
        if v.reached(c, i, k1) {
            lemma_saturated_reached_is_flooded(v, c, i, k1);
        } else {
            let j = choose|j: int| #[trigger] v.adjacent(j, i) && v.reached(c, j, k1);
            lemma_saturated_reached_is_flooded(v, c, j, k1);
        }
    }
}

/// A move keeps a board well formed.
pub proof fn lemma_move_keeps_wf(pre: BoardView, c: Color, post: BoardView)
    requires
        pre.wf(),
        pre.moved_to(c, post),
    ensures
        post.wf(),
{
}

/// A move's result is determined by the board and the color: after the move,
/// a cell is flooded exactly when it was reachable through that color.
pub proof fn lemma_move_is_determined(pre: BoardView, c: Color, p1: BoardView, p2: BoardView)
    requires
        pre.moved_to(c, p1),
        pre.moved_to(c, p2),
    ensures
        p1 == p2,
        forall|i: int| pre.in_bounds(i) ==> (#[trigger] p1.flooded(i) <==> pre.reachable(c, i)),
{
    assert forall|i: int| pre.in_bounds(i) implies (#[trigger] p1.flooded(i) <==> pre.reachable(
        c,
        i,
    )) by {
        if pre.reachable(c, i) {
            let k = choose|k: nat| pre.reached(c, i, k);
            lemma_reached_is_flooded_after(pre, c, p1, i, k);
        }
    }
    assert forall|i: int| 0 <= i < p1.cells.len() implies #[trigger] p1.cells[i] == p2.cells[i] by {
        if pre.reachable(c, i) {
            let k = choose|k: nat| pre.reached(c, i, k);
            lemma_reached_is_flooded_after(pre, c, p2, i, k);
        }
        assert(p1.color(i) == p2.color(i));
        assert(p1.flooded(i) == p2.flooded(i));
    }
    assert(p1.cells =~= p2.cells);
}

/// A move to color `c` on a board whose flooded region already has color `c`
/// and cannot grow through it changes nothing.
pub proof fn lemma_saturated_move_changes_nothing(pre: BoardView, c: Color, post: BoardView)
    requires
        pre.saturated(c),
        pre.moved_to(c, post),
    ensures
        post == pre,
{
    assert forall|i: int| 0 <= i < pre.cells.len() implies #[trigger] post.cells[i] == pre.cells[i] by {
        if post.flooded(i) {
            let k = choose|k: nat| pre.reached(c, i, k);
            lemma_saturated_reached_is_flooded(pre, c, i, k);
        }
        if pre.flooded(i) {
            assert(pre.color(i) == c);
        }
        assert(post.color(i) == pre.color(i));
    }
    assert(post.cells =~= pre.cells);
}

/// After a move to color `c`, the board is saturated for `c`.
pub proof fn lemma_move_saturates(pre: BoardView, c: Color, post: BoardView)
    requires
        pre.moved_to(c, post),
    ensures
        post.saturated(c),
{
    assert forall|i: int| post.in_bounds(i) && post.flooded(i) implies #[trigger] post.color(i) == c by {
        if !pre.flooded(i) {
            let k = choose|k: nat| pre.reached(c, i, k);
            lemma_reached_unflooded_has_color(pre, c, i, k);
        }
    }
}

/// Playing the same color twice in a row: the second move changes nothing.
pub proof fn lemma_repeated_move_changes_nothing(
    b0: BoardView,
    c: Color,
    b1: BoardView,
    b2: BoardView,
)
    requires
        b0.moved_to(c, b1),
        b1.moved_to(c, b2),
    ensures
        b2 == b1,
{
    lemma_move_saturates(b0, c, b1);
    lemma_saturated_move_changes_nothing(b1, c, b2);
}

/// Over any sequence of moves, a cell once flooded stays flooded: `boards[t + 1]`
/// is what the move `moves[t]` makes of `boards[t]`.
pub proof fn lemma_moves_never_unflood(
    boards: Seq<BoardView>,
    moves: Seq<Color>,
    a: int,
    b: int,
    i: int,
)
    requires
        boards.len() == moves.len() + 1,
        forall|t: int| 0 <= t < moves.len() ==> #[trigger] boards[t].moved_to(moves[t], boards[t + 1]),
        0 <= a <= b < boards.len(),
        boards[a].in_bounds(i),
        boards[a].flooded(i),
    ensures
        boards[b].in_bounds(i),
        boards[b].flooded(i),
    decreases b - a,
{
    if a < b {
        lemma_moves_never_unflood(boards, moves, a, b - 1, i);
        let t = b - 1;
        assert(boards[t].moved_to(moves[t], boards[t + 1]));
    }
}

} // verus!
