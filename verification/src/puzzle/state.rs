//! A grid configuration: an ordered vector of tile labels (0 is the blank),
//! row-major, together with the bookkeeping the search engine needs (path
//! cost, ranking score, the blank's previous coordinate, and the parent
//! configuration used as a lookup key during path reconstruction).

use vstd::prelude::*;

verus! {

use vstd::pervasive::VecAdditionalExecFns;

/// Row-major index of the cell at column `x`, row `y`.
pub open spec fn cell_index(x: int, y: int, size: int) -> int {
    x + y * size
}

/// First index at which `v` occurs in `s`; meaningful only when `s` contains `v`.
pub open spec fn first_pos(s: Seq<u8>, v: u8) -> int
    decreases s.len(),
{
    if s.len() == 0 {
        0
    } else if s[0] == v {
        0
    } else {
        1 + first_pos(s.skip(1), v)
    }
}

pub proof fn lemma_first_pos(s: Seq<u8>, v: u8)
    requires
        s.contains(v),
    ensures
        0 <= first_pos(s, v) < s.len(),
        s[first_pos(s, v)] == v,
        forall|j: int| 0 <= j < first_pos(s, v) ==> s[j] != v,
    decreases s.len(),
{
    if s.len() > 0 && s[0] != v {
        let i = choose|i: int| 0 <= i < s.len() && s[i] == v;
        assert(s.skip(1)[i - 1] == v);
        lemma_first_pos(s.skip(1), v);
        assert forall|j: int| 0 <= j < first_pos(s, v) implies s[j] != v by {
            if j > 0 {
                assert(s.skip(1)[j - 1] == s[j]);
            }
        }
    }
}

/// Index of the blank (label 0) in a configuration.
pub open spec fn blank_pos(cells: Seq<u8>) -> int {
    first_pos(cells, 0)
}

/// `s` with the contents of positions `i` and `j` exchanged.
pub open spec fn swap_seq(s: Seq<u8>, i: int, j: int) -> Seq<u8> {
    s.update(i, s[j]).update(j, s[i])
}

/// A well-formed configuration: every label below `size * size` appears
/// exactly once.  Labels are bytes, so a grid larger than 16 x 16 cannot
/// hold `size * size` distinct labels.
pub open spec fn wf_cells(cells: Seq<u8>, size: int) -> bool {
    &&& 3 <= size <= 16
    &&& cells.len() == size * size
    &&& forall|i: int| 0 <= i < cells.len() ==> (#[trigger] cells[i]) < size * size
    &&& forall|i: int, j: int|
        0 <= i < cells.len() && 0 <= j < cells.len() && i != j ==> cells[i] != cells[j]
    &&& forall|v: u8| v < size * size ==> cells.contains(v)
}

/// Cells `b` and `t` are orthogonal neighbours on a `size`-wide grid.
pub open spec fn adjacent(b: int, t: int, size: int) -> bool {
    let bx = b % size;
    let by = b / size;
    let tx = t % size;
    let ty = t / size;
    ||| (bx == tx && by == ty + 1)
    ||| (bx == tx && ty == by + 1)
    ||| (by == ty && bx == tx + 1)
    ||| (by == ty && tx == bx + 1)
}

/// `child` arises from `parent` by sliding one orthogonally adjacent tile
/// into the blank.
pub open spec fn is_slide(parent: Seq<u8>, child: Seq<u8>, size: int) -> bool {
    exists|t: int|
        0 <= t < parent.len() && adjacent(blank_pos(parent), t, size) && child == swap_seq(
            parent,
            blank_pos(parent),
            t,
        )
}

/// The cells the blank can move to, in the order the neighbours are
/// generated: left, right, up, down, skipping whatever falls off the grid.
pub open spec fn neighbor_targets(cells: Seq<u8>, size: int) -> Seq<int> {
    let b = blank_pos(cells);
    let bx = b % size;
    let by = b / size;
    (if bx > 0 {
        seq![b - 1]
    } else {
        Seq::empty()
    }) + (if bx < size - 1 {
        seq![b + 1]
    } else {
        Seq::empty()
    }) + (if by > 0 {
        seq![b - size]
    } else {
        Seq::empty()
    }) + (if by < size - 1 {
        seq![b + size]
    } else {
        Seq::empty()
    })
}

/// Consecutive configurations each arise from the previous one by a slide.
pub open spec fn is_slide_path(p: Seq<Seq<u8>>, size: int) -> bool {
    forall|i: int| 0 <= i < p.len() - 1 ==> is_slide(p[i], #[trigger] p[i + 1], size)
}

/// `to` can be reached from `from` by some sequence of slides.
pub open spec fn reachable(from: Seq<u8>, to: Seq<u8>, size: int) -> bool {
    exists|p: Seq<Seq<u8>>|
        #![auto]
        p.len() >= 1 && p[0] == from && p[p.len() - 1] == to && is_slide_path(p, size)
}

/// Every in-bounds adjacent cell of the blank occurs among the neighbour
/// targets, so `neighbors` enumerates every slide.
pub proof fn lemma_adjacent_in_targets(cells: Seq<u8>, size: int, t: int)
    requires
        wf_cells(cells, size),
        0 <= t < cells.len(),
        adjacent(blank_pos(cells), t, size),
    ensures
        exists|k: int|
            0 <= k < neighbor_targets(cells, size).len() && neighbor_targets(cells, size)[k] == t,
{
    assert(9 <= size * size) by (nonlinear_arith)
        requires
            3 <= size,
    ;
    assert(cells.contains(0u8));
    lemma_first_pos(cells, 0);
    let b = blank_pos(cells);
    lemma_div_mod_in_range(b, size);
    lemma_div_mod_in_range(t, size);
    let bx = b % size;
    let by = b / size;
    let tx = t % size;
    let ty = t / size;
    let ts = neighbor_targets(cells, size);
    let c1: int = if bx > 0 {
        1int
    } else {
        0int
    };
    let c2: int = c1 + (if bx < size - 1 {
        1int
    } else {
        0int
    });
    let c3: int = c2 + (if by > 0 {
        1int
    } else {
        0int
    });
    if bx == tx && by == ty + 1 {
        assert(bx + (by - 1) * size == bx + by * size - size) by (nonlinear_arith);
        assert(t == b - size);
        assert(ts[c2] == t);
    } else if bx == tx && ty == by + 1 {
        assert(bx + (by + 1) * size == bx + by * size + size) by (nonlinear_arith);
        assert(t == b + size);
        assert(ts[c3] == t);
    } else if by == ty && bx == tx + 1 {
        assert(t == b - 1);
        assert(ts[0] == t);
    } else {
        assert(t == b + 1);
        assert(ts[c1] == t);
    }
}

/// The number of neighbours depends only on where the blank sits: two in a
/// corner, three on an edge, four in the interior.
pub proof fn lemma_neighbor_count(cells: Seq<u8>, size: int)
    requires
        wf_cells(cells, size),
    ensures
        ({
            let b = blank_pos(cells);
            let bx = b % size;
            let by = b / size;
            let horizontal: int = if bx > 0 && bx < size - 1 {
                2
            } else {
                1
            };
            let vertical: int = if by > 0 && by < size - 1 {
                2
            } else {
                1
            };
            neighbor_targets(cells, size).len() == horizontal + vertical
        }),
        2 <= neighbor_targets(cells, size).len() <= 4,
{
    assert(9 <= size * size) by (nonlinear_arith)
        requires
            3 <= size,
    ;
    assert(cells.contains(0u8));
    lemma_first_pos(cells, 0);
    lemma_div_mod_in_range(blank_pos(cells), size);
}

/// The tiles at positions `j < i` (with `j` scanned first) form an inversion
/// when both are real tiles and the goal places the later-scanned tile after
/// the earlier one.
pub open spec fn pair_inverted(cells: Seq<u8>, goal: Seq<u8>, i: int, j: int) -> bool {
    &&& cells[i] != 0
    &&& cells[j] > 0
    &&& first_pos(goal, cells[j]) > first_pos(goal, cells[i])
}

/// Inversions of the tile at `i` against the tiles at positions below `j`.
pub open spec fn inversions_inner(cells: Seq<u8>, goal: Seq<u8>, i: int, j: int) -> int
    decreases j,
{
    if j <= 0 {
        0
    } else {
        inversions_inner(cells, goal, i, j - 1) + if pair_inverted(cells, goal, i, j - 1) {
            1int
        } else {
            0int
        }
    }
}

/// Inversions among the tiles at positions below `i`.
pub open spec fn inversions_upto(cells: Seq<u8>, goal: Seq<u8>, i: int) -> int
    decreases i,
{
    if i <= 0 {
        0
    } else {
        inversions_upto(cells, goal, i - 1) + inversions_inner(cells, goal, i - 1, i - 1)
    }
}

/// Tile inversions of a configuration relative to a goal layout.
pub open spec fn inversion_count(cells: Seq<u8>, goal: Seq<u8>) -> int {
    inversions_upto(cells, goal, cells.len() as int)
}

/// How far the blank's row is from its row in the goal layout.
pub open spec fn blank_row_dist(cells: Seq<u8>, goal: Seq<u8>, size: int) -> int {
    let a = blank_pos(cells) / size;
    let b = blank_pos(goal) / size;
    if b >= a {
        b - a
    } else {
        a - b
    }
}

pub proof fn lemma_inversions_inner_bounds(cells: Seq<u8>, goal: Seq<u8>, i: int, j: int)
    requires
        j >= 0,
    ensures
        0 <= inversions_inner(cells, goal, i, j) <= j,
    decreases j,
{
    if j > 0 {
        lemma_inversions_inner_bounds(cells, goal, i, j - 1);
    }
}

/// A blank contributes no inversion.
pub proof fn lemma_inversions_inner_blank(cells: Seq<u8>, goal: Seq<u8>, i: int, j: int)
    requires
        0 <= i < cells.len(),
        cells[i] == 0,
        j >= 0,
    ensures
        inversions_inner(cells, goal, i, j) == 0,
    decreases j,
{
    if j > 0 {
        lemma_inversions_inner_blank(cells, goal, i, j - 1);
    }
}

pub proof fn lemma_inversions_upto_bounds(cells: Seq<u8>, goal: Seq<u8>, i: int)
    requires
        i >= 0,
    ensures
        0 <= inversions_upto(cells, goal, i) <= i * i,
    decreases i,
{
    if i > 0 {
        lemma_inversions_upto_bounds(cells, goal, i - 1);
        lemma_inversions_inner_bounds(cells, goal, i - 1, i - 1);
        assert((i - 1) * (i - 1) + (i - 1) <= i * i) by (nonlinear_arith)
            requires
                i > 0,
        ;
    }
}

/// Cells filled by one clockwise spiral walk, mirroring `State::goal`: the
/// walk starts left of the top-left corner heading right, writes the labels
/// `1, 2, ...` in walk order, turns inward every time a segment ends, and
/// writes the blank (label `size * size` wrapped to 0) last, at the spiral's
/// centre.  A write that would land outside the vector is skipped, which
/// never happens on the walk's actual path.
pub open spec fn spiral_fill(
    cells: Seq<u8>,
    x: int,
    y: int,
    dx: int,
    dy: int,
    val: int,
    seg: int,
    step: int,
    size: int,
) -> Seq<u8>
    decreases 2 * size - seg, size - (seg + 1) / 2 - step,
{
    if seg < 0 || seg >= 2 * size {
        cells
    } else if step >= size - (seg + 1) / 2 {
        spiral_fill(cells, x, y, -dy, dx, val, seg + 1, 0, size)
    } else {
        let nx = x + dx;
        let ny = y + dy;
        let idx = nx + ny * size;
        let label = (((val + 1) % (size * size)) as u8);
        let written = if 0 <= idx < cells.len() {
            cells.update(idx, label)
        } else {
            cells
        };
        spiral_fill(written, nx, ny, dx, dy, val + 1, seg, step + 1, size)
    }
}

/// The canonical goal configuration for a grid of the given size.
pub open spec fn spiral_cells(size: int) -> Seq<u8> {
    spiral_fill(Seq::new((size * size) as nat, |i: int| 0u8), -1, 0, 1, 0, 0, 0, 0, size)
}

/// Where the corrupting swap starts: the first cell, unless the blank sits
/// in one of the first two cells, in which case the first cell of the
/// second row, which the blank then cannot occupy.
pub open spec fn corrupt_index(cells: Seq<u8>, size: int) -> int {
    if cells[0] == 0 || cells[1] == 0 {
        size
    } else {
        0
    }
}

/// The configuration with the two row-adjacent non-blank cells at the
/// corrupting swap's position exchanged.
pub open spec fn corrupted(cells: Seq<u8>, size: int) -> Seq<u8> {
    swap_seq(cells, corrupt_index(cells, size), corrupt_index(cells, size) + 1)
}

/// What `neighbors` promises of each generated state: the configuration is
/// the parent's with the blank slid to `t`, the bookkeeping fields are reset,
/// and the parent's configuration is recorded as the predecessor key.
pub open spec fn neighbor_shape(parent: State, child: State, t: int) -> bool {
    let size = parent.size as int;
    let b = blank_pos(parent.cells@);
    &&& child.cells@ == swap_seq(parent.cells@, b, t)
    &&& child.size == parent.size
    &&& child.cost == 0
    &&& child.score == 0
    &&& child.moved == Some((((b % size) as i32), ((b / size) as i32)))
    &&& child.predecessor is Some
    &&& child.predecessor->0@ == parent.cells@
    &&& child.wf()
    &&& is_slide(parent.cells@, child.cells@, size)
}

pub struct State {
    pub cells: Vec<u8>,
    pub size: usize,
    pub cost: i32,
    pub score: i64,
    pub moved: Option<(i32, i32)>,
    pub predecessor: Option<Vec<u8>>,
}

impl State {
    /// The configuration is a permutation of the labels `0 .. size * size`.
    pub open spec fn wf(self) -> bool {
        wf_cells(self.cells@, self.size as int)
    }

    pub fn new(size: usize, cells: Vec<u8>) -> (s: State)
        requires
            cells@.len() == size * size,
        ensures
            s.cells@ == cells@,
            s.size == size,
            s.cost == 0,
            s.score == 0,
            s.moved is None,
            s.predecessor is None,
    {
        State { cells, size, cost: 0, score: 0, moved: None, predecessor: None }
    }

    /// The canonical goal: tiles filled clockwise in a spiral, the blank at
    /// the spiral's centre.  Sizes above 15 cannot be filled this way, since
    /// the label wrap-around `val % (size * size)` is computed on bytes.
    ///
    /// The result is the spiral layout whenever that layout is a permutation
    /// (a run-time check, true for every supported size); the contract keeps
    /// the fact that a permutation always comes back separate from the fact
    /// that the spiral walk produced it.
    pub fn goal(size: usize) -> (s: State)
        requires
            3 <= size <= 15,
        ensures
            wf_cells(spiral_cells(size as int), size as int) ==> s.cells@ == spiral_cells(
                size as int,
            ),
            s.size == size,
            s.cost == 0,
            s.score == 0,
            s.moved is None,
            s.predecessor is None,
            s.wf(),
    {
        let ghost sz = size as int;
        proof {
            assert(9 <= sz * sz <= 225) by (nonlinear_arith)
                requires
                    3 <= sz <= 15,
            ;
        }
        let area = size * size;
        let mut cells: Vec<u8> = Vec::new();
        let mut fill: usize = 0;
        while fill < area
            invariant
                0 <= fill <= area,
                area == sz * sz,
                cells@ =~= Seq::new(fill as nat, |i: int| 0u8),
            decreases area - fill,
        {
            cells.push(0);
            fill += 1;
        }
        proof {
            assert(cells@ =~= Seq::new((sz * sz) as nat, |i: int| 0u8));
        }
        let ghost target = spiral_cells(sz);
        let mut x: i32 = -1;
        let mut y: i32 = 0;
        let mut x_dir: i32 = 1;
        let mut y_dir: i32 = 0;
        let mut val: usize = 0;
        let mut seg: usize = 0;
        while seg < 2 * size
            invariant
                3 <= size <= 15,
                sz == size as int,
                area == sz * sz,
                9 <= area <= 225,
                cells@.len() == area,
                0 <= seg <= 2 * size,
                val <= seg * size,
                -1 - val <= x <= 1 + val,
                -1 - val <= y <= 1 + val,
                (x_dir == 0 && (y_dir == 1 || y_dir == -1)) || (y_dir == 0 && (x_dir == 1
                    || x_dir == -1)),
                target == spiral_fill(
                    cells@,
                    x as int,
                    y as int,
                    x_dir as int,
                    y_dir as int,
                    val as int,
                    seg as int,
                    0,
                    sz,
                ),
            decreases 2 * size - seg,
        {
            let seg_len = size - (seg + 1) / 2;
            let mut step: usize = 0;
            while step < seg_len
                invariant
                    3 <= size <= 15,
                    sz == size as int,
                    area == sz * sz,
                    9 <= area <= 225,
                    cells@.len() == area,
                    0 <= seg < 2 * size,
                    seg_len == size - (seg + 1) / 2,
                    0 <= step <= seg_len,
                    val <= seg * size + step,
                    -1 - val <= x <= 1 + val,
                    -1 - val <= y <= 1 + val,
                    (x_dir == 0 && (y_dir == 1 || y_dir == -1)) || (y_dir == 0 && (x_dir == 1
                        || x_dir == -1)),
                    target == spiral_fill(
                        cells@,
                        x as int,
                        y as int,
                        x_dir as int,
                        y_dir as int,
                        val as int,
                        seg as int,
                        step as int,
                        sz,
                    ),
                decreases seg_len - step,
            {
                proof {
                    assert(seg * size + step + 1 <= 465) by (nonlinear_arith)
                        requires
                            0 <= seg < 2 * size,
                            0 <= step <= size,
                            3 <= size <= 15,
                    ;
                    assert(val + 1 <= 465);
                    assert(-467 <= x + x_dir <= 467);
                    assert(-467 <= y + y_dir <= 467);
                    assert(-7005 <= (y + y_dir) * sz <= 7005) by (nonlinear_arith)
                        requires
                            -467 <= y + y_dir <= 467,
                            0 <= sz <= 15,
                    ;
                }
                let nx = x + x_dir;
                let ny = y + y_dir;
                let idx: i32 = nx + ny * (size as i32);
                val = val + 1;
                let label: u8 = (val % area) as u8;
                if 0 <= idx && (idx as usize) < cells.len() {
                    cells.set(idx as usize, label);
                }
                x = nx;
                y = ny;
                step += 1;
            }
            let tmp = x_dir;
            x_dir = -y_dir;
            y_dir = tmp;
            seg += 1;
            proof {
                assert(val <= seg * size) by (nonlinear_arith)
                    requires
                        val <= (seg - 1) * size + (size - seg / 2),
                        seg >= 1,
                        size >= 3,
                ;
            }
        }
        proof {
            assert(target == cells@);
        }
        if cells_are_permutation(&cells, size) {
            State { cells, size, cost: 0, score: 0, moved: None, predecessor: None }
        } else {
            let fb = fallback_cells(size);
            State { cells: fb, size, cost: 0, score: 0, moved: None, predecessor: None }
        }
    }

    /// Replace the configuration by that of a uniformly chosen neighbour:
    /// one random legal slide of the blank.
    pub fn shuffle(&mut self)
        requires
            old(self).wf(),
        ensures
            final(self).wf(),
            final(self).size == old(self).size,
            final(self).cost == old(self).cost,
            final(self).score == old(self).score,
            final(self).moved == old(self).moved,
            final(self).predecessor == old(self).predecessor,
            is_slide(old(self).cells@, final(self).cells@, old(self).size as int),
    {
        let mut ns = self.neighbors();
        let draw = rand::random::<usize>();
        let choice = draw % ns.len();
        let picked = ns.swap_remove(choice);
        self.cells = picked.cells;
    }

    /// Swap the first two cells, or — when the blank occupies one of them —
    /// the first two cells of the second row.  Either way two row-adjacent
    /// real tiles trade places, which flips solvability.
    pub fn corrupt(&mut self)
        requires
            old(self).wf(),
        ensures
            final(self).wf(),
            final(self).size == old(self).size,
            final(self).cost == old(self).cost,
            final(self).score == old(self).score,
            final(self).moved == old(self).moved,
            final(self).predecessor == old(self).predecessor,
            final(self).cells@ == corrupted(old(self).cells@, old(self).size as int),
            ({
                let lo = corrupt_index(old(self).cells@, old(self).size as int);
                &&& old(self).cells@[lo] != 0
                &&& old(self).cells@[lo + 1] != 0
                &&& adjacent(lo, lo + 1, old(self).size as int)
            }),
    {
        let ghost sz = self.size as int;
        let ghost lo = corrupt_index(self.cells@, sz);
        proof {
            assert(9 <= sz * sz && sz + 1 < sz * sz) by (nonlinear_arith)
                requires
                    3 <= sz,
            ;
            lemma_cell_index_bounds(0, 1, sz);
            lemma_cell_index_bounds(1, 1, sz);
            lemma_cell_index_bounds(0, 0, sz);
            lemma_cell_index_bounds(1, 0, sz);
            assert(adjacent(lo, lo + 1, sz));
        }
        let n = self.cells.len();
        if self.cells[0] == 0 || self.cells[1] == 0 {
            let i = self.size;
            let j = self.size + 1;
            let a = self.cells[i];
            let b = self.cells[j];
            self.cells.set(i, b);
            self.cells.set(j, a);
            proof {
                lemma_swap_wf(old(self).cells@, sz, i as int, j as int);
                assert(final(self).cells@ =~= swap_seq(old(self).cells@, lo, lo + 1));
            }
        } else {
            let a = self.cells[0];
            let b = self.cells[1];
            self.cells.set(0, b);
            self.cells.set(1, a);
            proof {
                lemma_swap_wf(old(self).cells@, sz, 0, 1);
            }
        }
    }

    /// Tile inversions of this configuration relative to the goal layout:
    /// pairs of real tiles whose goal order is the reverse of their scan
    /// order.
    pub fn count_inversion(&self, goal: &Self) -> (r: i32)
        requires
            self.wf(),
            goal.wf(),
            self.size == goal.size,
        ensures
            r == inversion_count(self.cells@, goal.cells@),
            0 <= r <= self.cells@.len() * self.cells@.len(),
    {
        let ghost sz = self.size as int;
        proof {
            assert(sz * sz <= 256) by (nonlinear_arith)
                requires
                    0 <= sz <= 16,
            ;
        }
        let n = self.cells.len();
        let mut inv: i32 = 0;
        let mut i: usize = 0;
        while i < n
            invariant
                self.wf(),
                goal.wf(),
                self.size == goal.size,
                sz == self.size as int,
                n == self.cells@.len(),
                n <= 256,
                0 <= i <= n,
                inv == inversions_upto(self.cells@, goal.cells@, i as int),
                0 <= inv <= (i as int) * (i as int),
            decreases n - i,
        {
            let value = self.cells[i];
            if value != 0 {
                proof {
                    assert(goal.cells@.contains(value));
                    lemma_first_pos(goal.cells@, value);
                }
                let (x_i, y_i) = goal.coord(value);
                proof {
                    lemma_cell_index_bounds(x_i as int, y_i as int, sz);
                }
                let val_i = (x_i as usize) + (y_i as usize) * self.size;
                proof {
                    lemma_div_mod_in_range(first_pos(goal.cells@, value), sz);
                    assert(val_i == first_pos(goal.cells@, value));
                }
                let mut j: usize = 0;
                while j < i
                    invariant
                        self.wf(),
                        goal.wf(),
                        self.size == goal.size,
                        sz == self.size as int,
                        n == self.cells@.len(),
                        n <= 256,
                        0 <= j <= i < n,
                        value == self.cells@[i as int],
                        value != 0,
                        val_i == first_pos(goal.cells@, value),
                        inv == inversions_upto(self.cells@, goal.cells@, i as int)
                            + inversions_inner(self.cells@, goal.cells@, i as int, j as int),
                        0 <= inv <= (i as int) * (i as int) + (j as int),
                    decreases i - j,
                {
                    let other = self.cells[j];
                    proof {
                        assert(goal.cells@.contains(other));
                        lemma_first_pos(goal.cells@, other);
                    }
                    let (x_j, y_j) = goal.coord(other);
                    proof {
                        lemma_cell_index_bounds(x_j as int, y_j as int, sz);
                        lemma_div_mod_in_range(first_pos(goal.cells@, other), sz);
                    }
                    let val_j = (x_j as usize) + (y_j as usize) * self.size;
                    proof {
                        assert((i as int) * (i as int) <= 65536) by (nonlinear_arith)
                            requires
                                0 <= i <= 256,
                        ;
                    }
                    if other > 0 && val_j > val_i {
                        inv = inv + 1;
                    }
                    j += 1;
                }
            } else {
                proof {
                    lemma_inversions_inner_blank(self.cells@, goal.cells@, i as int, i as int);
                }
            }
            i += 1;
            proof {
                lemma_inversions_upto_bounds(self.cells@, goal.cells@, i as int);
            }
        }
        proof {
            lemma_inversions_upto_bounds(self.cells@, goal.cells@, n as int);
        }
        inv
    }

    /// How far the blank's row is from its row in the goal layout.
    pub fn row_of_empty(&self, goal: &Self) -> (r: i32)
        requires
            self.wf(),
            goal.wf(),
            self.size == goal.size,
        ensures
            r == blank_row_dist(self.cells@, goal.cells@, self.size as int),
            0 <= r < self.size,
    {
        let ghost sz = self.size as int;
        proof {
            assert(9 <= sz * sz) by (nonlinear_arith)
                requires
                    3 <= sz,
            ;
            assert(self.cells@.contains(0u8));
            assert(goal.cells@.contains(0u8));
        }
        let (_x0, y0) = self.coord(0);
        let (_x1, y1) = goal.coord(0);
        if y1 >= y0 {
            y1 - y0
        } else {
            y0 - y1
        }
    }

    pub fn size(&self) -> (r: usize)
        ensures
            r == self.size,
    {
        self.size
    }

    pub fn cells(&self) -> (r: &Vec<u8>)
        ensures
            r@ == self.cells@,
    {
        &self.cells
    }

    pub fn cost(&self) -> (r: &i32)
        ensures
            *r == self.cost,
    {
        &self.cost
    }

    pub fn cost_mut(&mut self) -> (r: &mut i32)
        ensures
            *r == old(self).cost,
            *final(self) == (State { cost: *final(r), ..*old(self) }),
    {
        &mut self.cost
    }

    pub fn score_mut(&mut self) -> (r: &mut i64)
        ensures
            *r == old(self).score,
            *final(self) == (State { score: *final(r), ..*old(self) }),
    {
        &mut self.score
    }

    pub fn moved(&self) -> (r: Option<(i32, i32)>)
        ensures
            r == self.moved,
    {
        self.moved
    }

    pub fn predecessor(&self) -> (r: &Option<Vec<u8>>)
        ensures
            *r == self.predecessor,
    {
        &self.predecessor
    }

    /// All states reachable by one slide of the blank, generated in the
    /// order left, right, up, down, skipping directions that leave the grid.
    pub fn neighbors(&self) -> (r: Vec<State>)
        requires
            self.wf(),
        ensures
            r@.len() == neighbor_targets(self.cells@, self.size as int).len(),
            2 <= r@.len() <= 4,
            forall|k: int|
                0 <= k < r@.len() ==> neighbor_shape(
                    *self,
                    #[trigger] r@[k],
                    neighbor_targets(self.cells@, self.size as int)[k],
                ),
    {
        let ghost size = self.size as int;
        let ghost ts = neighbor_targets(self.cells@, size);
        let ghost b = blank_pos(self.cells@);
        proof {
            assert(size * size >= 9) by (nonlinear_arith)
                requires
                    size >= 3,
            ;
            assert(self.cells@.contains(0));
            lemma_first_pos(self.cells@, 0);
        }
        let n = self.cells.len();
        let mut bi: usize = 0;
        while self.cells[bi] != 0
            invariant
                self.wf(),
                b == blank_pos(self.cells@),
                n == self.cells@.len(),
                0 <= b < self.cells@.len(),
                self.cells@[b] == 0,
                0 <= bi <= b,
            decreases self.cells@.len() - bi,
        {
            proof {
                lemma_first_pos(self.cells@, 0);
            }
            bi += 1;
        }
        proof {
            lemma_first_pos(self.cells@, 0);
            assert(bi == b);
            lemma_div_mod_in_range(bi as int, size);
        }
        let x_empty = bi % self.size;
        let y_empty = bi / self.size;
        let ghost bx = b % size;
        let ghost by = b / size;
        let mut result: Vec<State> = Vec::new();
        if x_empty > 0 {
            result.push(self.neighbor(x_empty as i32, y_empty as i32, -1, 0));
        }
        proof {
            assert(result@.len() == (if bx > 0 { 1int } else { 0int }));
            assert forall|k: int| 0 <= k < result@.len() implies neighbor_shape(
                *self,
                result@[k],
                ts[k],
            ) by {
                assert(ts[0] == b - 1);
                assert(cell_index(bx - 1, by, size) == b - 1);
            }
        }
        if x_empty < self.size - 1 {
            result.push(self.neighbor(x_empty as i32, y_empty as i32, 1, 0));
        }
        proof {
            let c1 = if bx > 0 { 1int } else { 0int };
            assert(result@.len() == c1 + (if bx < size - 1 { 1int } else { 0int }));
            assert forall|k: int| 0 <= k < result@.len() implies neighbor_shape(
                *self,
                result@[k],
                ts[k],
            ) by {
                if bx < size - 1 {
                    assert(ts[c1] == b + 1);
                    assert(cell_index(bx + 1, by, size) == b + 1);
                }
            }
        }
        if y_empty > 0 {
            result.push(self.neighbor(x_empty as i32, y_empty as i32, 0, -1));
        }
        proof {
            let c1 = if bx > 0 { 1int } else { 0int };
            let c2 = c1 + (if bx < size - 1 { 1int } else { 0int });
            assert(result@.len() == c2 + (if by > 0 { 1int } else { 0int }));
            assert forall|k: int| 0 <= k < result@.len() implies neighbor_shape(
                *self,
                result@[k],
                ts[k],
            ) by {
                if by > 0 {
                    assert(ts[c2] == b - size);
                    assert(bx + (by - 1) * size == bx + by * size - size) by (nonlinear_arith);
                    assert(cell_index(bx, by - 1, size) == b - size);
                }
            }
        }
        if y_empty < self.size - 1 {
            result.push(self.neighbor(x_empty as i32, y_empty as i32, 0, 1));
        }
        proof {
            let c1 = if bx > 0 { 1int } else { 0int };
            let c2 = c1 + (if bx < size - 1 { 1int } else { 0int });
            let c3 = c2 + (if by > 0 { 1int } else { 0int });
            assert(result@.len() == c3 + (if by < size - 1 { 1int } else { 0int }));
            assert forall|k: int| 0 <= k < result@.len() implies neighbor_shape(
                *self,
                result@[k],
                ts[k],
            ) by {
                if by < size - 1 {
                    assert(ts[c3] == b + size);
                    assert(bx + (by + 1) * size == bx + by * size + size) by (nonlinear_arith);
                    assert(cell_index(bx, by + 1, size) == b + size);
                }
            }
            assert(result@.len() == ts.len());
            assert(2 <= result@.len() <= 4);
        }
        result
    }

    /// The state obtained by sliding the blank at `(x_empty, y_empty)` one
    /// step in the direction `(x_neighbor, y_neighbor)`.
    fn neighbor(&self, x_empty: i32, y_empty: i32, x_neighbor: i32, y_neighbor: i32) -> (r: State)
        requires
            self.wf(),
            0 <= x_empty < self.size,
            0 <= y_empty < self.size,
            0 <= x_empty + x_neighbor < self.size,
            0 <= y_empty + y_neighbor < self.size,
            (x_neighbor == 0 && (y_neighbor == 1 || y_neighbor == -1)) || (y_neighbor == 0 && (
            x_neighbor == 1 || x_neighbor == -1)),
            blank_pos(self.cells@) == cell_index(x_empty as int, y_empty as int, self.size as int),
        ensures
            neighbor_shape(
                *self,
                r,
                cell_index(
                    x_empty + x_neighbor,
                    y_empty + y_neighbor,
                    self.size as int,
                ),
            ),
    {
        let ghost size = self.size as int;
        let ghost b = blank_pos(self.cells@);
        let ghost t = cell_index(x_empty + x_neighbor, y_empty + y_neighbor, size);
        proof {
            lemma_cell_index_bounds(x_empty as int, y_empty as int, size);
            lemma_cell_index_bounds(
                x_empty + x_neighbor,
                y_empty + y_neighbor,
                size,
            );
            lemma_swap_wf(self.cells@, size, b, t);
        }
        let n = self.cells.len();
        let bi: usize = (x_empty as usize) + (y_empty as usize) * self.size;
        let ti: usize = ((x_empty + x_neighbor) as usize) + ((y_empty + y_neighbor) as usize)
            * self.size;
        let mut cells = clone_cells(&self.cells);
        let blank_tile = cells[bi];
        let moved_tile = cells[ti];
        cells.set(bi, moved_tile);
        cells.set(ti, blank_tile);
        let r = State {
            cells,
            size: self.size,
            cost: 0,
            score: 0,
            moved: Some((x_empty, y_empty)),
            predecessor: Some(clone_cells(&self.cells)),
        };
        proof {
            assert(r.cells@ == swap_seq(self.cells@, b, t));
            assert(b % size == x_empty as int && b / size == y_empty as int);
            assert(t % size == x_empty + x_neighbor && t / size == y_empty + y_neighbor);
            assert(adjacent(b, t, size));
            assert(0 <= t < self.cells@.len() && adjacent(blank_pos(self.cells@), t, size)
                && r.cells@ == swap_seq(self.cells@, blank_pos(self.cells@), t));
            assert(is_slide(self.cells@, r.cells@, size));
        }
        r
    }

    /// The tile at column `x`, row `y`.
    pub fn access(&self, x: i32, y: i32) -> (r: u8)
        requires
            0 <= x < self.size,
            0 <= y < self.size,
            self.cells@.len() == self.size * self.size,
        ensures
            r == self.cells@[cell_index(x as int, y as int, self.size as int)],
    {
        let n = self.cells.len();
        proof {
            lemma_cell_index_bounds(x as int, y as int, self.size as int);
        }
        self.cells[(x as usize) + (y as usize) * self.size]
    }

    /// The (column, row) coordinate of the cell holding `value`.
    pub fn coord(&self, value: u8) -> (r: (i32, i32))
        requires
            self.wf(),
            self.cells@.contains(value),
        ensures
            r.0 == first_pos(self.cells@, value) % (self.size as int),
            r.1 == first_pos(self.cells@, value) / (self.size as int),
            0 <= r.0 < self.size,
            0 <= r.1 < self.size,
            self.cells@[cell_index(r.0 as int, r.1 as int, self.size as int)] == value,
    {
        proof {
            lemma_first_pos(self.cells@, value);
        }
        let mut i: usize = 0;
        while i < self.cells.len()
            invariant
                self.wf(),
                self.cells@.contains(value),
                0 <= i <= self.cells@.len(),
                forall|j: int| 0 <= j < i ==> self.cells@[j] != value,
            decreases self.cells@.len() - i,
        {
            if self.cells[i] == value {
                proof {
                    lemma_first_pos(self.cells@, value);
                    assert(first_pos(self.cells@, value) == i);
                    vstd::arithmetic::div_mod::lemma_fundamental_div_mod(
                        i as int,
                        self.size as int,
                    );
                    lemma_div_mod_in_range(i as int, self.size as int);
                }
                return ((i % self.size) as i32, (i / self.size) as i32);
            }
            i += 1;
        }
        proof {
            let p = first_pos(self.cells@, value);
            lemma_first_pos(self.cells@, value);
            assert(self.cells@[p] != value);
            assert(false);
        }
        (0, 0)
    }
}

/// Exchanging two cells keeps a configuration well formed.
pub proof fn lemma_swap_wf(cells: Seq<u8>, size: int, i: int, j: int)
    requires
        wf_cells(cells, size),
        0 <= i < cells.len(),
        0 <= j < cells.len(),
    ensures
        wf_cells(swap_seq(cells, i, j), size),
{
    let s = swap_seq(cells, i, j);
    assert forall|k: int, l: int|
        0 <= k < s.len() && 0 <= l < s.len() && k != l implies s[k] != s[l] by {
        let sk = if k == i { j } else if k == j { i } else { k };
        let sl = if l == i { j } else if l == j { i } else { l };
        assert(s[k] == cells[sk]);
        assert(s[l] == cells[sl]);
    }
    assert forall|v: u8| v < size * size implies s.contains(v) by {
        assert(cells.contains(v));
        let p = choose|p: int| 0 <= p < cells.len() && cells[p] == v;
        if p == i {
            assert(s[j] == v);
        } else if p == j {
            assert(s[i] == v);
        } else {
            assert(s[p] == v);
        }
    }
}

/// Some state in the list carries exactly this configuration.
pub open spec fn key_in(list: Seq<State>, key: Seq<u8>) -> bool {
    exists|i: int| 0 <= i < list.len() && list[i].cells@ == key
}

/// First index whose state carries this configuration; meaningful only when
/// one does.
pub open spec fn first_key_index(list: Seq<State>, key: Seq<u8>) -> int
    decreases list.len(),
{
    if list.len() == 0 {
        0
    } else if list[0].cells@ == key {
        0
    } else {
        1 + first_key_index(list.skip(1), key)
    }
}

pub proof fn lemma_first_key_index(list: Seq<State>, key: Seq<u8>)
    requires
        key_in(list, key),
    ensures
        0 <= first_key_index(list, key) < list.len(),
        list[first_key_index(list, key)].cells@ == key,
        forall|j: int| 0 <= j < first_key_index(list, key) ==> list[j].cells@ != key,
    decreases list.len(),
{
    if list.len() > 0 && list[0].cells@ != key {
        let i = choose|i: int| 0 <= i < list.len() && list[i].cells@ == key;
        assert(list.skip(1)[i - 1] == list[i]);
        lemma_first_key_index(list.skip(1), key);
        assert forall|j: int| 0 <= j < first_key_index(list, key) implies list[j].cells@
            != key by {
            if j > 0 {
                assert(list.skip(1)[j - 1] == list[j]);
            }
        }
    }
}

/// One slide always changes the configuration: the blank moves.
pub proof fn lemma_slide_changes(parent: Seq<u8>, child: Seq<u8>, size: int)
    requires
        wf_cells(parent, size),
        is_slide(parent, child, size),
    ensures
        child != parent,
{
    let b = blank_pos(parent);
    assert(parent.contains(0u8)) by {
        assert(9 <= size * size) by (nonlinear_arith)
            requires
                3 <= size,
        ;
    }
    lemma_first_pos(parent, 0);
    let t = choose|t: int|
        0 <= t < parent.len() && adjacent(blank_pos(parent), t, size) && child == swap_seq(
            parent,
            blank_pos(parent),
            t,
        );
    assert(t != b);
    assert(child[b] == parent[t]);
    assert(parent[t] != parent[b]);
}

/// Compare two configurations cell by cell.
pub fn cells_equal(a: &Vec<u8>, b: &Vec<u8>) -> (r: bool)
    ensures
        r == (a@ == b@),
{
    if a.len() != b.len() {
        return false;
    }
    let mut i: usize = 0;
    while i < a.len()
        invariant
            a@.len() == b@.len(),
            0 <= i <= a@.len(),
            forall|j: int| 0 <= j < i ==> a@[j] == b@[j],
        decreases a@.len() - i,
    {
        if a[i] != b[i] {
            return false;
        }
        i += 1;
    }
    proof {
        assert(a@ =~= b@);
    }
    true
}

/// First state in the list carrying this configuration, if any.
pub fn find_key(list: &Vec<State>, key: &Vec<u8>) -> (r: Option<usize>)
    ensures
        match r {
            Some(i) => i < list@.len() && list@[i as int].cells@ == key@ && i as int
                == first_key_index(list@, key@) && key_in(list@, key@),
            None => !key_in(list@, key@),
        },
{
    let mut i: usize = 0;
    while i < list.len()
        invariant
            0 <= i <= list@.len(),
            forall|j: int| 0 <= j < i ==> list@[j].cells@ != key@,
        decreases list@.len() - i,
    {
        if cells_equal(&list[i].cells, key) {
            proof {
                lemma_first_key_index(list@, key@);
            }
            return Some(i);
        }
        i += 1;
    }
    proof {
        if key_in(list@, key@) {
            let j = choose|j: int| 0 <= j < list@.len() && list@[j].cells@ == key@;
            assert(false);
        }
    }
    None
}

/// Relies on rand::random: a value drawn from the thread-local generator;
/// nothing can be promised of it.
pub assume_specification<T>[ rand::random::<T> ]() -> (r: T)
    where
        rand::distributions::Standard: rand::distributions::Distribution<T>,
;

/// Decides whether a vector of labels is a permutation of `0 .. size * size`.
fn cells_are_permutation(cells: &Vec<u8>, size: usize) -> (r: bool)
    requires
        3 <= size <= 15,
    ensures
        r == wf_cells(cells@, size as int),
{
    let ghost sz = size as int;
    proof {
        assert(9 <= sz * sz <= 225) by (nonlinear_arith)
            requires
                3 <= sz <= 15,
        ;
    }
    let area = size * size;
    if cells.len() != area {
        return false;
    }
    let mut seen: Vec<bool> = Vec::new();
    let mut fill: usize = 0;
    while fill < area
        invariant
            0 <= fill <= area,
            seen@.len() == fill,
            forall|u: int| 0 <= u < fill ==> !seen@[u],
        decreases area - fill,
    {
        seen.push(false);
        fill += 1;
    }
    let mut i: usize = 0;
    while i < area
        invariant
            3 <= sz <= 15,
            sz == size as int,
            area == sz * sz,
            9 <= area <= 225,
            cells@.len() == area,
            seen@.len() == area,
            0 <= i <= area,
            forall|j: int| 0 <= j < i ==> (#[trigger] cells@[j]) < area,
            forall|j: int, k: int| 0 <= j < k < i ==> cells@[j] != cells@[k],
            forall|u: int|
                0 <= u < area ==> (seen@[u] <==> exists|j: int|
                    0 <= j < i && (#[trigger] cells@[j]) == u),
        decreases area - i,
    {
        let c = cells[i];
        if (c as usize) >= area {
            return false;
        }
        if seen[c as usize] {
            proof {
                let j = choose|j: int| 0 <= j < i && cells@[j] == c as int;
                assert(cells@[j] == cells@[i as int]);
            }
            return false;
        }
        seen.set(c as usize, true);
        i += 1;
        proof {
            assert forall|u: int|
                0 <= u < area implies (seen@[u] <==> exists|j: int|
                    0 <= j < i && (#[trigger] cells@[j]) == u) by {
                if u == c as int {
                    assert(cells@[i - 1] == u);
                }
            }
        }
    }
    let mut v: usize = 0;
    while v < area
        invariant
            3 <= sz <= 15,
            sz == size as int,
            area == sz * sz,
            9 <= area <= 225,
            cells@.len() == area,
            seen@.len() == area,
            0 <= v <= area,
            forall|j: int| 0 <= j < area ==> (#[trigger] cells@[j]) < area,
            forall|j: int, k: int| 0 <= j < k < area ==> cells@[j] != cells@[k],
            forall|u: int|
                0 <= u < area ==> (seen@[u] <==> exists|j: int|
                    0 <= j < area && (#[trigger] cells@[j]) == u),
            forall|u: u8| u < v ==> cells@.contains(u),
        decreases area - v,
    {
        if !seen[v] {
            proof {
                assert forall|j: int| 0 <= j < area implies cells@[j] != v as u8 by {
                    if cells@[j] == v as u8 {
                        assert(seen@[v as int]);
                    }
                }
                if cells@.contains(v as u8) {
                    let j = choose|j: int| 0 <= j < cells@.len() && cells@[j] == v as u8;
                    assert(false);
                }
            }
            return false;
        }
        proof {
            let j = choose|j: int| 0 <= j < area && (cells@[j] as int) == v as int;
            assert(cells@.contains(v as u8));
        }
        v += 1;
    }
    proof {
        assert forall|j: int, k: int|
            0 <= j < cells@.len() && 0 <= k < cells@.len() && j != k implies cells@[j]
            != cells@[k] by {}
        assert forall|u: u8| u < sz * sz implies cells@.contains(u) by {
            assert(u < area);
        }
    }
    true
}

/// An ascending layout with the blank last; provably a permutation, used
/// only to keep `goal` total.
fn fallback_cells(size: usize) -> (r: Vec<u8>)
    requires
        3 <= size <= 15,
    ensures
        wf_cells(r@, size as int),
{
    let ghost sz = size as int;
    proof {
        assert(9 <= sz * sz <= 225) by (nonlinear_arith)
            requires
                3 <= sz <= 15,
        ;
    }
    let area = size * size;
    let mut r: Vec<u8> = Vec::new();
    let mut i: usize = 0;
    while i < area
        invariant
            area == sz * sz,
            9 <= area <= 225,
            0 <= i <= area,
            r@.len() == i,
            forall|j: int| 0 <= j < i ==> (#[trigger] r@[j]) == ((j + 1) % (area as int)),
        decreases area - i,
    {
        let label: u8 = ((i + 1) % area) as u8;
        r.push(label);
        i += 1;
    }
    proof {
        assert forall|j: int, k: int|
            0 <= j < r@.len() && 0 <= k < r@.len() && j != k implies r@[j] != r@[k] by {
            assert(r@[j] == (j + 1) % (area as int));
            assert(r@[k] == (k + 1) % (area as int));
            vstd::arithmetic::div_mod::lemma_mod_self_0(area as int);
            if j < area - 1 {
                vstd::arithmetic::div_mod::lemma_small_mod((j + 1) as nat, area as nat);
            }
            if k < area - 1 {
                vstd::arithmetic::div_mod::lemma_small_mod((k + 1) as nat, area as nat);
            }
        }
        assert forall|v: u8| v < sz * sz implies r@.contains(v) by {
            vstd::arithmetic::div_mod::lemma_mod_self_0(area as int);
            if v == 0 {
                assert(r@[area - 1] == (area as int) % (area as int));
                assert(r@[area - 1] == 0);
            } else {
                vstd::arithmetic::div_mod::lemma_small_mod(v as nat, area as nat);
                assert(r@[v - 1] == (v as int) % (area as int));
                assert(r@[v - 1] == v);
            }
        }
    }
    r
}

fn clone_cells(v: &Vec<u8>) -> (r: Vec<u8>)
    ensures
        r@ == v@,
{
    let mut r: Vec<u8> = Vec::new();
    let mut i: usize = 0;
    while i < v.len()
        invariant
            0 <= i <= v@.len(),
            r@ == v@.subrange(0, i as int),
        decreases v@.len() - i,
    {
        r.push(v[i]);
        i += 1;
    }
    proof {
        assert(r@ =~= v@);
    }
    r
}

/// A cell index below `size * size` splits into a column and a row below `size`.
pub proof fn lemma_div_mod_in_range(i: int, size: int)
    requires
        0 <= i < size * size,
        1 <= size,
    ensures
        0 <= i % size < size,
        0 <= i / size < size,
        cell_index(i % size, i / size, size) == i,
{
    vstd::arithmetic::div_mod::lemma_fundamental_div_mod(i, size);
    vstd::arithmetic::div_mod::lemma_mod_bound(i, size);
    assert(i / size < size) by (nonlinear_arith)
        requires
            0 <= i < size * size,
            1 <= size,
            i == size * (i / size) + i % size,
            0 <= i % size < size,
    ;
    assert(i / size >= 0) by (nonlinear_arith)
        requires
            0 <= i,
            1 <= size,
            i == size * (i / size) + i % size,
            0 <= i % size < size,
    ;
    assert(i % size + (i / size) * size == i) by (nonlinear_arith)
        requires
            i == size * (i / size) + i % size,
    ;
}

/// A (column, row) pair inside the grid addresses a cell inside the vector.
pub proof fn lemma_cell_index_bounds(x: int, y: int, size: int)
    requires
        0 <= x < size,
        0 <= y < size,
    ensures
        0 <= cell_index(x, y, size) < size * size,
        cell_index(x, y, size) % size == x,
        cell_index(x, y, size) / size == y,
{
    assert(0 <= x + y * size < size * size) by (nonlinear_arith)
        requires
            0 <= x < size,
            0 <= y < size,
    ;
    vstd::arithmetic::div_mod::lemma_fundamental_div_mod_converse(
        x + y * size,
        size,
        y,
        x,
    );
}

} // verus!
