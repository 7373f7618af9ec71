//! The board: a flat, row-major grid of cells, and the flood fill that a move runs on it.

use vstd::prelude::*;
use vstd::arithmetic::div_mod::{
    lemma_fundamental_div_mod,
    lemma_fundamental_div_mod_converse_div,
    lemma_fundamental_div_mod_converse_mod,
};

use crate::color::{Color, PALETTE_SIZE};
use crate::model::{
    BoardView,
    flooded_count,
    lemma_flooded_count_bound,
    lemma_flooded_count_flood,
    lemma_flooded_count_prefix,
    lemma_reached_ignores_flooded_colors,
};

verus! {

/// One square of the grid.
#[derive(Clone, Copy, Debug, PartialEq, Eq, Structural)]
pub struct Cell {
    pub is_flooded: bool,
    pub color: Color,
}

impl Default for Cell {
    /// An unflooded cell of the first palette color.
    fn default() -> (c: Cell)
        ensures
            c == (Cell { is_flooded: false, color: Color::Blue }),
    {
        Cell { is_flooded: false, color: Color::Blue }
    }
}

/// What a board operation can refuse.
#[derive(Clone, Copy, Debug, PartialEq, Eq, Structural)]
pub enum BoardError {
    /// A width or height of zero, or colors that do not fill the grid.
    InvalidDimensions,
    /// An index at or past the number of cells.
    IndexOutOfBounds,
}

/// A width-by-height grid of cells, stored row by row.
pub struct FloodBoard {
    board: Vec<Cell>,
    width: usize,
    height: usize,
}

impl View for FloodBoard {
    type V = BoardView;

    closed spec fn view(&self) -> BoardView {
        BoardView { cells: self.board@, width: self.width as nat, height: self.height as nat }
    }
}

/// Relies on rand's `Rng::gen_range(low, high)`, which draws uniformly from
/// `low..high` and panics only when `low >= high`.
#[verifier::external_body]
fn random_below(bound: u8) -> (r: u8)
    requires
        bound > 0,
    ensures
        r < bound,
{
    rand::Rng::gen_range(&mut rand::thread_rng(), 0u8, bound)
}

/// Cell `j` needs no more attention when growing through color `c`.
pub open spec fn settled(v: BoardView, c: Color, j: int) -> bool {
    v.flooded(j) || v.color(j) != c
}

/// Two indices with the same column and row are equal.
pub proof fn lemma_same_coords(v: BoardView, i: int, j: int)
    requires
        v.width > 0,
        i >= 0,
        j >= 0,
        v.col(i) == v.col(j),
        v.row(i) == v.row(j),
    ensures
        i == j,
{
    lemma_index_of_coords(v.width as int, i);
    lemma_index_of_coords(v.width as int, j);
}

/// The column and row of a cell lie inside the grid.
pub proof fn lemma_coords_in_grid(v: BoardView, j: int)
    requires
        v.wf(),
        v.in_bounds(j),
    ensures
        0 <= v.col(j) < v.width,
        0 <= v.row(j) < v.height,
{
    let w = v.width as int;
    let h = v.height as int;
    lemma_index_of_coords(w, j);
    let q = j / w;
    assert(q < h) by (nonlinear_arith)
        requires
            j == j % w + q * w,
            0 <= j % w,
            j < w * h,
            w > 0,
    ;
}

/// Column and row of the index `col + row * w`.
pub proof fn lemma_coords_of_index(w: int, col: int, row: int)
    requires
        w > 0,
        0 <= col < w,
    ensures
        (col + row * w) % w == col,
        (col + row * w) / w == row,
{
    assert(col + row * w == row * w + col);
    lemma_fundamental_div_mod_converse_mod(col + row * w, w, row, col);
    lemma_fundamental_div_mod_converse_div(col + row * w, w, row, col);
}

/// Every index is its column plus its row times the width.
pub proof fn lemma_index_of_coords(w: int, i: int)
    requires
        w > 0,
        i >= 0,
    ensures
        i == i % w + (i / w) * w,
        0 <= i % w < w,
        i / w >= 0,
{
    lemma_fundamental_div_mod(i, w);
    assert(w * (i / w) == (i / w) * w) by (nonlinear_arith);
    assert(i / w >= 0) by (nonlinear_arith)
        requires
            w > 0,
            i >= 0,
    ;
}

impl FloodBoard {
    /// The board's invariant: a non-empty grid with one cell per position.
    pub open spec fn wf(&self) -> bool {
        &&& self@.wf()
        &&& self@.cells.len() <= usize::MAX
    }

    /// A board of the given colors, row by row, flooded at index 0 only.
    /// Refused when a side is zero or the colors do not fill the grid.
    pub fn from_colors(width: usize, height: usize, colors: Vec<Color>) -> (r: Result<
        FloodBoard,
        BoardError,
    >)
        ensures
            (width == 0 || height == 0 || colors@.len() != width * height) <==> r is Err,
            r is Err ==> r == Err::<FloodBoard, BoardError>(BoardError::InvalidDimensions),
            r matches Ok(b) ==> {
                &&& b.wf()
                &&& b@.width == width
                &&& b@.height == height
                &&& forall|i: int|
                    0 <= i < colors@.len() ==> #[trigger] b@.cells[i] == (Cell {
                        is_flooded: i == 0,
                        color: colors@[i],
                    })
            },
    {
        let len = colors.len();
        if width == 0 || height == 0 {
            return Err(BoardError::InvalidDimensions);
        }
        match width.checked_mul(height) {
            None => Err(BoardError::InvalidDimensions),
            Some(n) => {
                if len != n {
                    return Err(BoardError::InvalidDimensions);
                }
                let mut board: Vec<Cell> = Vec::new();
                let mut i: usize = 0;
                while i < n
                    invariant
                        n == colors@.len(),
                        0 <= i <= n,
                        board@.len() == i,
                        forall|k: int|
                            0 <= k < i ==> #[trigger] board@[k] == (Cell {
                                is_flooded: k == 0,
                                color: colors@[k],
                            }),
                    decreases n - i,
                {
                    board.push(Cell { is_flooded: i == 0, color: colors[i] });
                    i += 1;
                }
                Ok(FloodBoard { board, width, height })
            },
        }
    }

    /// A board of independently drawn random colors, flooded at index 0 only.
    /// Refused when a side is zero.
    pub fn new(width: usize, height: usize) -> (r: Result<FloodBoard, BoardError>)
        requires
            width * height <= usize::MAX,
        ensures
            (width == 0 || height == 0) <==> r is Err,
            r is Err ==> r == Err::<FloodBoard, BoardError>(BoardError::InvalidDimensions),
            r matches Ok(b) ==> {
                &&& b.wf()
                &&& b@.width == width
                &&& b@.height == height
                &&& forall|i: int| 0 <= i < b@.cells.len() ==> (#[trigger] b@.cells[i]).is_flooded
                    == (i == 0)
            },
    {
        if width == 0 || height == 0 {
            return Err(BoardError::InvalidDimensions);
        }
        let n = width * height;
        let mut colors: Vec<Color> = Vec::new();
        let mut i: usize = 0;
        while i < n
            invariant
                0 <= i <= n,
                colors@.len() == i,
            decreases n - i,
        {
            colors.push(Color::from_index(random_below(PALETTE_SIZE)));
            i += 1;
        }
        FloodBoard::from_colors(width, height, colors)
    }

    pub fn width(&self) -> (r: usize)
        ensures
            r == self@.width,
    {
        self.width
    }

    pub fn height(&self) -> (r: usize)
        ensures
            r == self@.height,
    {
        self.height
    }

    /// Number of cells.
    pub fn len(&self) -> (r: usize)
        ensures
            r == self@.cells.len(),
    {
        self.board.len()
    }

    /// Color of the cell at `index`.
    pub fn color_at(&self, index: usize) -> (r: Result<Color, BoardError>)
        ensures
            index < self@.cells.len() ==> r == Ok::<Color, BoardError>(self@.color(index as int)),
            index >= self@.cells.len() ==> r == Err::<Color, BoardError>(
                BoardError::IndexOutOfBounds,
            ),
    {
        if index < self.board.len() {
            Ok(self.board[index].color)
        } else {
            Err(BoardError::IndexOutOfBounds)
        }
    }

    /// Whether the cell at `index` is flooded.
    pub fn is_flooded(&self, index: usize) -> (r: Result<bool, BoardError>)
        ensures
            index < self@.cells.len() ==> r == Ok::<bool, BoardError>(self@.flooded(index as int)),
            index >= self@.cells.len() ==> r == Err::<bool, BoardError>(
                BoardError::IndexOutOfBounds,
            ),
    {
        if index < self.board.len() {
            Ok(self.board[index].is_flooded)
        } else {
            Err(BoardError::IndexOutOfBounds)
        }
    }

    /// Plays a move: every flooded cell takes color `c`, then the flooded
    /// region grows into every cell of color `c` that a path of adjacent
    /// cells of color `c` joins to it.
    pub fn change_color(&mut self, c: Color)
        requires
            old(self).wf(),
        ensures
            final(self).wf(),
            old(self)@.moved_to(c, final(self)@),
    {
        let ghost pre = self@;
        let n = self.board.len();
        let mut i: usize = 0;
        while i < n
            invariant
                self.wf(),
                self@.width == pre.width,
                self@.height == pre.height,
                self@.cells.len() == n,
                n == pre.cells.len(),
                0 <= i <= n,
                forall|k: int|
                    0 <= k < i ==> #[trigger] self@.cells[k] == if pre.flooded(k) {
                        Cell { is_flooded: true, color: c }
                    } else {
                        pre.cells[k]
                    },
                forall|k: int| i <= k < n ==> #[trigger] self@.cells[k] == pre.cells[k],
            decreases n - i,
        {
            if self.board[i].is_flooded {
                self.board.set(i, Cell { is_flooded: true, color: c });
            }
            i += 1;
        }
        let ghost mid = self@;
        self.flood_neighbors(c);
        proof {
            let post = self@;
            assert forall|x: int| mid.in_bounds(x) implies #[trigger] mid.flooded(x) == pre.flooded(
                x,
            ) by {
                assert(mid.cells[x] == if pre.flooded(x) {
                    Cell { is_flooded: true, color: c }
                } else {
                    pre.cells[x]
                });
            }
            assert forall|i: int| pre.in_bounds(i) && #[trigger] post.flooded(i) implies pre.reachable(
                c,
                i,
            ) by {
                let k = choose|k: nat| mid.reached(c, i, k);
                lemma_reached_ignores_flooded_colors(mid, pre, c, i, k);
            }
            assert forall|i: int| pre.in_bounds(i) implies #[trigger] post.color(i) == if pre.flooded(
                i,
            ) {
                c
            } else {
                pre.color(i)
            } by {
                assert(mid.cells[i] == if pre.flooded(i) {
                    Cell { is_flooded: true, color: c }
                } else {
                    pre.cells[i]
                });
                assert(post.color(i) == mid.color(i));
            }
            assert forall|i: int| pre.in_bounds(i) && pre.flooded(i) implies #[trigger] post.flooded(
                i,
            ) by {
                assert(mid.flooded(i));
            }
        }
    }

    /// State of the breadth-first search that grows the flooded region of
    /// `start` through color `c`. The queue holds every flooded cell once, in
    /// the order it was flooded; cells before `head` have had their neighbors
    /// examined. `rank` bounds each flooded cell's distance from `start`'s
    /// region, and `pos` gives each flooded cell's place in the queue.
    spec fn search_state(
        &self,
        start: BoardView,
        c: Color,
        queue: Seq<usize>,
        head: int,
        rank: Seq<nat>,
        pos: Seq<int>,
    ) -> bool {
        let v = self@;
        &&& self.wf()
        &&& v.width == start.width
        &&& v.height == start.height
        &&& v.cells.len() == start.cells.len()
        &&& rank.len() == v.cells.len()
        &&& pos.len() == v.cells.len()
        &&& 0 <= head <= queue.len()
        &&& queue.len() == flooded_count(v.cells)
        &&& queue.len() <= v.cells.len()
        &&& forall|i: int| v.in_bounds(i) ==> #[trigger] v.color(i) == start.color(i)
        &&& forall|i: int| v.in_bounds(i) && start.flooded(i) ==> #[trigger] v.flooded(i)
        &&& forall|i: int| v.in_bounds(i) && #[trigger] v.flooded(i) ==> start.reached(c, i, rank[i])
        &&& forall|i: int|
            v.in_bounds(i) && #[trigger] v.flooded(i) ==> 0 <= pos[i] < queue.len() && queue[pos[i]]
                == i
        &&& forall|p: int|
            0 <= p < queue.len() ==> v.in_bounds(#[trigger] queue[p] as int) && v.flooded(
                queue[p] as int,
            )
        &&& forall|p: int, j: int|
            0 <= p < head && #[trigger] v.adjacent(#[trigger] queue[p] as int, j) ==> settled(
                v,
                c,
                j,
            )
    }

    /// Floods cell `j`, a neighbor of the cell `cand` being examined, and
    /// queues it, when it is unflooded and of color `c`.
    fn annex(
        &mut self,
        j: usize,
        c: Color,
        queue: &mut Vec<usize>,
        Ghost(start): Ghost<BoardView>,
        Ghost(head): Ghost<int>,
        Ghost(cand): Ghost<int>,
        Ghost(rank): Ghost<Seq<nat>>,
        Ghost(pos): Ghost<Seq<int>>,
    ) -> (r: (Ghost<Seq<nat>>, Ghost<Seq<int>>))
        requires
            old(self).search_state(start, c, old(queue)@, head, rank, pos),
            0 <= head < old(queue)@.len(),
            cand == old(queue)@[head],
            old(self)@.adjacent(cand, j as int),
        ensures
            final(self).search_state(start, c, final(queue)@, head, r.0@, r.1@),
            final(queue)@ == old(queue)@ || final(queue)@ == old(queue)@.push(j),
            settled(final(self)@, c, j as int),
            forall|i: int|
                old(self)@.in_bounds(i) && #[trigger] settled(old(self)@, c, i) ==> settled(
                    final(self)@,
                    c,
                    i,
                ),
    {
        let cell = self.board[j];
        if !cell.is_flooded && cell.color == c {
            let ghost v = self@;
            let ghost q = queue@;
            let new_cell = Cell { is_flooded: true, color: c };
            self.board.set(j, new_cell);
            queue.push(j);
            let ghost new_rank = rank.update(j as int, rank[cand] + 1);
            let ghost new_pos = pos.update(j as int, q.len() as int);
            proof {
                let w = self@;
                let k = rank[cand];
                lemma_flooded_count_flood(v.cells, j as int, new_cell);
                lemma_flooded_count_bound(w.cells);
                assert(start.adjacent(cand, j as int));
                assert(start.reached(c, cand, k));
                assert(v.cells[j as int] == cell);
                assert(v.color(j as int) == c);
                assert(start.color(j as int) == c);
                assert forall|i: int| w.in_bounds(i) implies #[trigger] w.color(i) == start.color(i) by {
                    assert(v.color(i) == start.color(i));
                }
                assert forall|i: int| w.in_bounds(i) && start.flooded(i) implies #[trigger] w.flooded(i) by {
                    assert(v.flooded(i));
                }
                assert(start.reached(c, j as int, (k + 1) as nat));
                assert forall|i: int| w.in_bounds(i) && #[trigger] w.flooded(i) implies 0 <= new_pos[i]
                    < queue@.len() && queue@[new_pos[i]] == i by {
                    if i != j {
                        assert(v.flooded(i));
                    }
                }
                assert forall|p: int| 0 <= p < queue@.len() implies w.in_bounds(
                    #[trigger] queue@[p] as int,
                ) && w.flooded(queue@[p] as int) by {
                    if p < q.len() {
                        assert(q[p] == queue@[p]);
                    }
                }
                assert forall|p: int, i: int|
                    0 <= p < head && #[trigger] w.adjacent(#[trigger] queue@[p] as int, i) implies settled(
                    w,
                    c,
                    i,
                ) by {
                    assert(queue@[p] == q[p]);
                    assert(v.adjacent(q[p] as int, i));
                }
                assert forall|i: int| w.in_bounds(i) && #[trigger] w.flooded(i) implies start.reached(
                    c,
                    i,
                    new_rank[i],
                ) by {
                    if i != j {
                        assert(v.flooded(i));
                    }
                }
                assert forall|i: int| v.in_bounds(i) && #[trigger] settled(v, c, i) implies settled(
                    w,
                    c,
                    i,
                ) by {
                    if i != j {
                        assert(w.cells[i] == v.cells[i]);
                    }
                }
            }
            (Ghost(new_rank), Ghost(new_pos))
        } else {
            (Ghost(rank), Ghost(pos))
        }
    }

    /// Examines the four neighbors of the queued cell at `head`.
    fn examine(
        &mut self,
        c: Color,
        queue: &mut Vec<usize>,
        head: usize,
        Ghost(start): Ghost<BoardView>,
        Ghost(rank): Ghost<Seq<nat>>,
        Ghost(pos): Ghost<Seq<int>>,
    ) -> (r: (Ghost<Seq<nat>>, Ghost<Seq<int>>))
        requires
            old(self).search_state(start, c, old(queue)@, head as int, rank, pos),
            head < old(queue)@.len(),
        ensures
            final(self).search_state(start, c, final(queue)@, head + 1, r.0@, r.1@),
            final(queue)@.len() >= old(queue)@.len(),
    {
        let ghost mut rank = rank;
        let ghost mut pos = pos;
        let ghost h = head as int;
        let cand = queue[head];
        let ghost k = cand as int;
        let (col, row) = self.idx_to_pos(cand);
        let ghost mut left: int = -1;
        let ghost mut up: int = -1;
        let ghost mut right: int = -1;
        let ghost mut down: int = -1;
        if col > 0 {
            let j = self.pos_to_idx(col - 1, row);
            let (r, p) = self.annex(
                j,
                c,
                queue,
                Ghost(start),
                Ghost(h),
                Ghost(k),
                Ghost(rank),
                Ghost(pos),
            );
            proof {
                rank = r@;
                pos = p@;
                left = j as int;
            }
        }
        if row > 0 {
            let j = self.pos_to_idx(col, row - 1);
            let (r, p) = self.annex(
                j,
                c,
                queue,
                Ghost(start),
                Ghost(h),
                Ghost(k),
                Ghost(rank),
                Ghost(pos),
            );
            proof {
                rank = r@;
                pos = p@;
                up = j as int;
            }
        }
        if col + 1 < self.width {
            let j = self.pos_to_idx(col + 1, row);
            let (r, p) = self.annex(
                j,
                c,
                queue,
                Ghost(start),
                Ghost(h),
                Ghost(k),
                Ghost(rank),
                Ghost(pos),
            );
            proof {
                rank = r@;
                pos = p@;
                right = j as int;
            }
        }
        if row + 1 < self.height {
            let j = self.pos_to_idx(col, row + 1);
            let (r, p) = self.annex(
                j,
                c,
                queue,
                Ghost(start),
                Ghost(h),
                Ghost(k),
                Ghost(rank),
                Ghost(pos),
            );
            proof {
                rank = r@;
                pos = p@;
                down = j as int;
            }
        }
        proof {
            let v = self@;
            assert(queue@[h] as int == k);
            assert(col > 0 ==> v.in_bounds(left) && v.col(left) == col - 1 && v.row(left) == row
                && settled(v, c, left));
            assert(row > 0 ==> v.in_bounds(up) && v.col(up) == col && v.row(up) == row - 1
                && settled(v, c, up));
            assert(col + 1 < v.width ==> v.in_bounds(right) && v.col(right) == col + 1 && v.row(
                right,
            ) == row && settled(v, c, right));
            assert(row + 1 < v.height ==> v.in_bounds(down) && v.col(down) == col && v.row(down)
                == row + 1 && settled(v, c, down));
            assert forall|p: int, j: int|
                0 <= p < h + 1 && #[trigger] v.adjacent(#[trigger] queue@[p] as int, j) implies settled(
                v,
                c,
                j,
            ) by {
                if p == h {
                    lemma_coords_in_grid(v, j);
                    if v.col(j) + 1 == col && v.row(j) == row {
                        lemma_same_coords(v, j, left);
                    } else if v.col(j) == col && v.row(j) + 1 == row {
                        lemma_same_coords(v, j, up);
                    } else if v.col(j) == col + 1 && v.row(j) == row {
                        lemma_same_coords(v, j, right);
                    } else {
                        lemma_same_coords(v, j, down);
                    }
                }
            }
        }
        (Ghost(rank), Ghost(pos))
    }

    /// Grows the flooded region breadth-first into every cell of color `c`
    /// that a path of adjacent cells of color `c` joins to it. Colors stay.
    /// Each cell enters the queue at most once, so the queue never holds more
    /// entries than the board has cells, and the search ends.
    fn flood_neighbors(&mut self, c: Color)
        requires
            old(self).wf(),
        ensures
            final(self).wf(),
            final(self)@.width == old(self)@.width,
            final(self)@.height == old(self)@.height,
            final(self)@.cells.len() == old(self)@.cells.len(),
            forall|i: int| old(self)@.in_bounds(i) ==> #[trigger] final(self)@.color(i) == old(self)@.color(i),
            forall|i: int|
                old(self)@.in_bounds(i) && old(self)@.flooded(i) ==> #[trigger] final(self)@.flooded(i),
            forall|i: int|
                old(self)@.in_bounds(i) && #[trigger] final(self)@.flooded(i) ==> old(self)@.reachable(
                    c,
                    i,
                ),
            final(self)@.closed_for(c),
    {
        let ghost start = self@;
        let n = self.board.len();
        let mut queue: Vec<usize> = Vec::new();
        let ghost mut pos: Seq<int> = Seq::new(n as nat, |i: int| 0int);
        let mut i: usize = 0;
        while i < n
            invariant
                self@ == start,
                self.wf(),
                n == start.cells.len(),
                0 <= i <= n,
                pos.len() == n,
                queue@.len() == flooded_count(start.cells.take(i as int)),
                forall|p: int|
                    0 <= p < queue@.len() ==> #[trigger] queue@[p] < i && start.flooded(
                        queue@[p] as int,
                    ),
                forall|k: int|
                    0 <= k < i && #[trigger] start.flooded(k) ==> 0 <= pos[k] < queue@.len()
                        && queue@[pos[k]] == k,
            decreases n - i,
        {
            proof {
                lemma_flooded_count_prefix(start.cells, i as int);
            }
            if self.board[i].is_flooded {
                proof {
                    pos = pos.update(i as int, queue@.len() as int);
                }
                queue.push(i);
            }
            i += 1;
        }
        assert(start.cells.take(n as int) =~= start.cells);
        proof {
            lemma_flooded_count_bound(start.cells);
        }
        let ghost mut rank: Seq<nat> = Seq::new(n as nat, |i: int| 0nat);
        let mut head: usize = 0;
        while head < queue.len()
            invariant
                self.search_state(start, c, queue@, head as int, rank, pos),
                n == start.cells.len(),
            decreases 2 * n - head - queue@.len(),
        {
            let (r, p) = self.examine(
                c,
                &mut queue,
                head,
                Ghost(start),
                Ghost(rank),
                Ghost(pos),
            );
            proof {
                rank = r@;
                pos = p@;
            }
            head += 1;
        }
        proof {
            let v = self@;
            assert forall|i: int, j: int|
                #[trigger] v.adjacent(i, j) && v.flooded(i) && !v.flooded(j) implies v.color(j) != c by {
                let p = pos[i];
                assert(queue@[p] as int == i);
            }
            assert forall|i: int|
                start.in_bounds(i) && #[trigger] v.flooded(i) implies start.reachable(c, i) by {
                assert(start.reached(c, i, rank[i]));
            }
        }
    }

    /// Index of the cell in column `col` and row `row`.
    pub fn pos_to_idx(&self, col: usize, row: usize) -> (r: usize)
        requires
            self.wf(),
            col < self@.width,
            row < self@.height,
        ensures
            r == col + row * self@.width,
            r < self@.cells.len(),
            self@.col(r as int) == col,
            self@.row(r as int) == row,
    {
        let ghost w = self.width as int;
        let ghost h = self.height as int;
        proof {
            assert(col + row * w < w * h) by (nonlinear_arith)
                requires
                    0 <= col < w,
                    0 <= row < h,
            ;
            lemma_coords_of_index(w, col as int, row as int);
        }
        col + (row * self.width)
    }

    /// Column and row of the cell at `idx`.
    pub fn idx_to_pos(&self, idx: usize) -> (r: (usize, usize))
        requires
            self.wf(),
            idx < self@.cells.len(),
        ensures
            r.0 == idx as int % self@.width as int,
            r.1 == (idx as int / self@.width as int) % self@.height as int,
            r.0 == self@.col(idx as int),
            r.1 == self@.row(idx as int),
            r.0 < self@.width,
            r.1 < self@.height,
    {
        let ghost w = self.width as int;
        let ghost h = self.height as int;
        proof {
            lemma_index_of_coords(w, idx as int);
            let q = idx as int / w;
            assert(q < h) by (nonlinear_arith)
                requires
                    idx as int == idx as int % w + q * w,
                    0 <= idx as int % w,
                    idx < w * h,
                    w > 0,
            ;
            vstd::arithmetic::div_mod::lemma_small_mod(q as nat, h as nat);
        }
        (idx % self.width, idx / self.width % self.height)
    }
}

} // verus!
