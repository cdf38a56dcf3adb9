//! Admissible distance estimators between a configuration and the goal
//! layout, selectable by name: Manhattan distance, the misplaced-tile count
//! (with its deliberately conjunctive both-axes condition), and Manhattan
//! plus twice the number of linear conflicts.

use vstd::prelude::*;

verus! {

use crate::puzzle::state::{
    State,
    adjacent,
    blank_pos,
    first_pos,
    is_slide,
    is_slide_path,
    swap_seq,
    wf_cells,
    lemma_cell_index_bounds,
    lemma_div_mod_in_range,
    lemma_first_pos,
    lemma_swap_wf,
};

#[derive(Clone, Copy, Debug, PartialEq, Eq, Structural)]
pub enum Heuristic {
    Manhattan,
    Hamming,
    LinearConflictManhattan,
}

pub open spec fn abs_diff(a: int, b: int) -> int {
    if a >= b {
        a - b
    } else {
        b - a
    }
}

/// Moves the tile at position `p` still needs, ignoring every other tile:
/// the grid distance from `p` to the tile's place in the goal layout.
pub open spec fn tile_manhattan(cells: Seq<u8>, goal: Seq<u8>, size: int, p: int) -> int {
    let v = cells[p];
    if v == 0 {
        0
    } else {
        let q = first_pos(goal, v);
        abs_diff(q % size, p % size) + abs_diff(q / size, p / size)
    }
}

pub open spec fn manhattan_upto(cells: Seq<u8>, goal: Seq<u8>, size: int, k: int) -> int
    decreases k,
{
    if k <= 0 {
        0
    } else {
        manhattan_upto(cells, goal, size, k - 1) + tile_manhattan(cells, goal, size, k - 1)
    }
}

/// Sum of the per-tile grid distances to the goal layout.
pub open spec fn manhattan_distance(cells: Seq<u8>, goal: Seq<u8>, size: int) -> int {
    manhattan_upto(cells, goal, size, cells.len() as int)
}

/// The misplaced-tile test: a tile counts only when it sits on the wrong
/// column and the wrong row at once, so a tile aligned on either axis is
/// never counted.
pub open spec fn tile_misplaced(cells: Seq<u8>, goal: Seq<u8>, size: int, p: int) -> bool {
    let v = cells[p];
    &&& v != 0
    &&& first_pos(goal, v) % size != p % size
    &&& first_pos(goal, v) / size != p / size
}

pub open spec fn hamming_upto(cells: Seq<u8>, goal: Seq<u8>, size: int, k: int) -> int
    decreases k,
{
    if k <= 0 {
        0
    } else {
        hamming_upto(cells, goal, size, k - 1) + if tile_misplaced(cells, goal, size, k - 1) {
            1int
        } else {
            0int
        }
    }
}

pub open spec fn hamming_distance(cells: Seq<u8>, goal: Seq<u8>, size: int) -> int {
    hamming_upto(cells, goal, size, cells.len() as int)
}

/// The tile at `p` sits in the column the goal wants it in.
pub open spec fn col_aligned(cells: Seq<u8>, goal: Seq<u8>, size: int, p: int) -> bool {
    cells[p] != 0 && first_pos(goal, cells[p]) % size == p % size
}

/// The tile at `p` sits in the row the goal wants it in.
pub open spec fn row_aligned(cells: Seq<u8>, goal: Seq<u8>, size: int, p: int) -> bool {
    cells[p] != 0 && first_pos(goal, cells[p]) / size == p / size
}

/// Conflicts of the column-aligned tile at `p` with the tiles of the same
/// column at rows `p / size .. m`: those also column-aligned but owed a
/// smaller goal row.
pub open spec fn col_conflicts(cells: Seq<u8>, goal: Seq<u8>, size: int, p: int, m: int) -> int
    decreases m - p / size,
{
    if m <= p / size {
        0
    } else {
        let o = p % size + (m - 1) * size;
        col_conflicts(cells, goal, size, p, m - 1) + if col_aligned(cells, goal, size, o)
            && first_pos(goal, cells[o]) / size < first_pos(goal, cells[p]) / size {
            1int
        } else {
            0int
        }
    }
}

/// Conflicts of the row-aligned tile at `p` with the tiles of the same row
/// at columns `p % size .. m`: those also row-aligned but owed a smaller
/// goal column.
pub open spec fn row_conflicts(cells: Seq<u8>, goal: Seq<u8>, size: int, p: int, m: int) -> int
    decreases m - p % size,
{
    if m <= p % size {
        0
    } else {
        let o = (m - 1) + (p / size) * size;
        row_conflicts(cells, goal, size, p, m - 1) + if row_aligned(cells, goal, size, o)
            && first_pos(goal, cells[o]) % size < first_pos(goal, cells[p]) % size {
            1int
        } else {
            0int
        }
    }
}

pub open spec fn cell_conflicts(cells: Seq<u8>, goal: Seq<u8>, size: int, p: int) -> int {
    (if col_aligned(cells, goal, size, p) {
        col_conflicts(cells, goal, size, p, size)
    } else {
        0int
    }) + (if row_aligned(cells, goal, size, p) {
        row_conflicts(cells, goal, size, p, size)
    } else {
        0int
    })
}

pub open spec fn conflicts_upto(cells: Seq<u8>, goal: Seq<u8>, size: int, k: int) -> int
    decreases k,
{
    if k <= 0 {
        0
    } else {
        conflicts_upto(cells, goal, size, k - 1) + cell_conflicts(cells, goal, size, k - 1)
    }
}

/// Linear conflicts: same-line pairs whose goal order along that line is
/// inverted, each needing two extra moves beyond Manhattan distance.
pub open spec fn linear_conflicts(cells: Seq<u8>, goal: Seq<u8>, size: int) -> int {
    conflicts_upto(cells, goal, size, cells.len() as int)
}

pub open spec fn linear_conflict_distance(cells: Seq<u8>, goal: Seq<u8>, size: int) -> int {
    manhattan_distance(cells, goal, size) + 2 * linear_conflicts(cells, goal, size)
}

/// The value of the selected estimator.
pub open spec fn heuristic_value(h: Heuristic, cells: Seq<u8>, goal: Seq<u8>, size: int) -> int {
    match h {
        Heuristic::Manhattan => manhattan_distance(cells, goal, size),
        Heuristic::Hamming => hamming_distance(cells, goal, size),
        Heuristic::LinearConflictManhattan => linear_conflict_distance(cells, goal, size),
    }
}

/// In a permutation, a tile's first occurrence is its own position.
proof fn lemma_first_pos_self(cells: Seq<u8>, size: int, p: int)
    requires
        wf_cells(cells, size),
        0 <= p < cells.len(),
    ensures
        first_pos(cells, cells[p]) == p,
{
    assert(cells.contains(cells[p]));
    lemma_first_pos(cells, cells[p]);
    let q = first_pos(cells, cells[p]);
    assert(cells[q] == cells[p]);
}

proof fn lemma_manhattan_upto_self(cells: Seq<u8>, size: int, k: int)
    requires
        wf_cells(cells, size),
        0 <= k <= cells.len(),
    ensures
        manhattan_upto(cells, cells, size, k) == 0,
    decreases k,
{
    if k > 0 {
        lemma_manhattan_upto_self(cells, size, k - 1);
        if cells[k - 1] != 0 {
            lemma_first_pos_self(cells, size, k - 1);
        }
    }
}

proof fn lemma_hamming_upto_self(cells: Seq<u8>, size: int, k: int)
    requires
        wf_cells(cells, size),
        0 <= k <= cells.len(),
    ensures
        hamming_upto(cells, cells, size, k) == 0,
    decreases k,
{
    if k > 0 {
        lemma_hamming_upto_self(cells, size, k - 1);
        if cells[k - 1] != 0 {
            lemma_first_pos_self(cells, size, k - 1);
        }
    }
}

proof fn lemma_col_conflicts_self(cells: Seq<u8>, size: int, p: int, m: int)
    requires
        wf_cells(cells, size),
        0 <= p < cells.len(),
        m <= size,
    ensures
        col_conflicts(cells, cells, size, p, m) == 0,
    decreases m - p / size,
{
    lemma_div_mod_in_range(p, size);
    if m > p / size {
        lemma_col_conflicts_self(cells, size, p, m - 1);
        let o = p % size + (m - 1) * size;
        lemma_cell_index_bounds(p % size, m - 1, size);
        lemma_first_pos_self(cells, size, o);
        lemma_first_pos_self(cells, size, p);
    }
}

proof fn lemma_row_conflicts_self(cells: Seq<u8>, size: int, p: int, m: int)
    requires
        wf_cells(cells, size),
        0 <= p < cells.len(),
        m <= size,
    ensures
        row_conflicts(cells, cells, size, p, m) == 0,
    decreases m - p % size,
{
    lemma_div_mod_in_range(p, size);
    if m > p % size {
        lemma_row_conflicts_self(cells, size, p, m - 1);
        let o = (m - 1) + (p / size) * size;
        lemma_cell_index_bounds(m - 1, p / size, size);
        lemma_first_pos_self(cells, size, o);
        lemma_first_pos_self(cells, size, p);
    }
}

proof fn lemma_conflicts_upto_self(cells: Seq<u8>, size: int, k: int)
    requires
        wf_cells(cells, size),
        0 <= k <= cells.len(),
    ensures
        conflicts_upto(cells, cells, size, k) == 0,
    decreases k,
{
    if k > 0 {
        lemma_conflicts_upto_self(cells, size, k - 1);
        lemma_col_conflicts_self(cells, size, k - 1, size);
        lemma_row_conflicts_self(cells, size, k - 1, size);
    }
}

/// Every estimator judges a configuration to be zero moves from itself:
/// `heuristic(state, state) == 0` for every variant.
pub proof fn lemma_heuristic_self_zero(h: Heuristic, cells: Seq<u8>, size: int)
    requires
        wf_cells(cells, size),
    ensures
        heuristic_value(h, cells, cells, size) == 0,
{
    let n = cells.len() as int;
    match h {
        Heuristic::Manhattan => lemma_manhattan_upto_self(cells, size, n),
        Heuristic::Hamming => lemma_hamming_upto_self(cells, size, n),
        Heuristic::LinearConflictManhattan => {
            lemma_manhattan_upto_self(cells, size, n);
            lemma_conflicts_upto_self(cells, size, n);
        },
    }
}

/// Sums over configurations equal except at `b` and `t` differ only in the
/// terms of those two positions.
proof fn lemma_sum_except_two(
    parent: Seq<u8>,
    child: Seq<u8>,
    goal: Seq<u8>,
    size: int,
    b: int,
    t: int,
    k: int,
)
    requires
        parent.len() == child.len(),
        0 <= b < parent.len(),
        0 <= t < parent.len(),
        b != t,
        forall|i: int| 0 <= i < parent.len() && i != b && i != t ==> parent[i] == child[i],
        k <= parent.len(),
    ensures
        manhattan_upto(parent, goal, size, k) - manhattan_upto(child, goal, size, k) == (if k > b {
            tile_manhattan(parent, goal, size, b) - tile_manhattan(child, goal, size, b)
        } else {
            0int
        }) + (if k > t {
            tile_manhattan(parent, goal, size, t) - tile_manhattan(child, goal, size, t)
        } else {
            0int
        }),
    decreases k,
{
    if k > 0 {
        lemma_sum_except_two(parent, child, goal, size, b, t, k - 1);
        if k - 1 != b && k - 1 != t {
            assert(parent[k - 1] == child[k - 1]);
        }
    }
}

/// Consistency of the Manhattan estimate: one slide changes it by at most
/// one in either direction, since only the moved tile changes position, and
/// only to an adjacent cell.
pub proof fn lemma_slide_manhattan_step(parent: Seq<u8>, child: Seq<u8>, goal: Seq<u8>, size: int)
    requires
        wf_cells(parent, size),
        wf_cells(goal, size),
        is_slide(parent, child, size),
    ensures
        wf_cells(child, size),
        manhattan_distance(parent, goal, size) <= manhattan_distance(child, goal, size) + 1,
        manhattan_distance(child, goal, size) <= manhattan_distance(parent, goal, size) + 1,
{
    assert(9 <= size * size) by (nonlinear_arith)
        requires
            3 <= size,
    ;
    assert(parent.contains(0u8));
    lemma_first_pos(parent, 0);
    let b = blank_pos(parent);
    let t = choose|t: int|
        0 <= t < parent.len() && adjacent(blank_pos(parent), t, size) && child == swap_seq(
            parent,
            blank_pos(parent),
            t,
        );
    lemma_swap_wf(parent, size, b, t);
    assert(t != b);
    let v = parent[t];
    assert(child[b] == v && child[t] == 0);
    lemma_div_mod_in_range(b, size);
    lemma_div_mod_in_range(t, size);
    let n = parent.len() as int;
    lemma_sum_except_two(parent, child, goal, size, b, t, n);
    assert(tile_manhattan(parent, goal, size, b) == 0);
    assert(tile_manhattan(child, goal, size, t) == 0);
    if v == 0 {
        assert(parent[t] != parent[b]);
    }
    assert(goal.contains(v));
    lemma_first_pos(goal, v);
    let g = first_pos(goal, v);
    lemma_div_mod_in_range(g, size);
    assert(abs_diff(t % size, b % size) + abs_diff(t / size, b / size) == 1);
    assert(tile_manhattan(parent, goal, size, t) == abs_diff(g % size, t % size) + abs_diff(
        g / size,
        t / size,
    ));
    assert(tile_manhattan(child, goal, size, b) == abs_diff(g % size, b % size) + abs_diff(
        g / size,
        b / size,
    ));
    assert(tile_manhattan(parent, goal, size, t) <= tile_manhattan(child, goal, size, b) + 1);
    assert(tile_manhattan(child, goal, size, b) <= tile_manhattan(parent, goal, size, t) + 1);
}

/// A tile misplaced on both axes is at least one slide from its place, so
/// the misplaced count never exceeds the Manhattan estimate.
proof fn lemma_hamming_le_manhattan(cells: Seq<u8>, goal: Seq<u8>, size: int, k: int)
    ensures
        hamming_upto(cells, goal, size, k) <= manhattan_upto(cells, goal, size, k),
    decreases k,
{
    if k > 0 {
        lemma_hamming_le_manhattan(cells, goal, size, k - 1);
    }
}

/// Admissibility of the Manhattan and misplaced-tile estimators: along any
/// slide path that reaches the goal layout, each estimate of the path's
/// first configuration is at most the number of slides.  The linear
/// conflict estimator is not covered by this statement.
pub proof fn lemma_estimates_admissible(p: Seq<Seq<u8>>, goal: Seq<u8>, size: int)
    requires
        p.len() >= 1,
        is_slide_path(p, size),
        wf_cells(p[0], size),
        wf_cells(goal, size),
        p[p.len() - 1] == goal,
    ensures
        manhattan_distance(p[0], goal, size) <= p.len() - 1,
        hamming_distance(p[0], goal, size) <= p.len() - 1,
    decreases p.len(),
{
    lemma_hamming_le_manhattan(p[0], goal, size, p[0].len() as int);
    if p.len() == 1 {
        lemma_manhattan_upto_self(goal, size, goal.len() as int);
    } else {
        assert(is_slide(p[0], p[0int + 1], size));
        lemma_slide_manhattan_step(p[0], p[1], goal, size);
        let rest = p.skip(1);
        assert(rest[0] == p[1]);
        assert(rest[rest.len() - 1] == p[p.len() - 1]);
        assert(is_slide_path(rest, size)) by {
            assert forall|i: int| 0 <= i < rest.len() - 1 implies is_slide(
                rest[i],
                #[trigger] rest[i + 1],
                size,
            ) by {
                assert(rest[i] == p[i + 1]);
                assert(rest[i + 1] == p[i + 2]);
            }
        }
        lemma_estimates_admissible(rest, goal, size);
        assert(p[0].len() == p[1].len());
    }
}

/// The estimator a configuration-time name selects, if any.
pub open spec fn method_of_name(s: Seq<char>) -> Option<Heuristic> {
    if s == "manhattan"@ {
        Some(Heuristic::Manhattan)
    } else if s == "hamming"@ {
        Some(Heuristic::Hamming)
    } else if s == "linear_conflict+manhattan"@ {
        Some(Heuristic::LinearConflictManhattan)
    } else {
        None
    }
}

/// Resolve an estimator name once, at configuration time.
pub fn arg_to_method(arg: &str) -> (r: Option<Heuristic>)
    ensures
        r == method_of_name(arg@),
{
    let s = arg.to_owned();
    if s == "manhattan".to_owned() {
        Some(Heuristic::Manhattan)
    } else if s == "hamming".to_owned() {
        Some(Heuristic::Hamming)
    } else if s == "linear_conflict+manhattan".to_owned() {
        Some(Heuristic::LinearConflictManhattan)
    } else {
        None
    }
}

/// Sum of the per-tile grid distances between a configuration and the goal.
pub fn manhattan(a: &State, b: &State) -> (r: i32)
    requires
        a.wf(),
        b.wf(),
        a.size == b.size,
    ensures
        r == manhattan_distance(a.cells@, b.cells@, a.size as int),
        0 <= r <= 100000,
{
    let ghost sz = a.size as int;
    proof {
        assert(sz * sz <= 256) by (nonlinear_arith)
            requires
                0 <= sz <= 16,
        ;
    }
    let n = a.cells.len();
    let mut total: i32 = 0;
    let mut p: usize = 0;
    while p < n
        invariant
            a.wf(),
            b.wf(),
            a.size == b.size,
            sz == a.size as int,
            n == a.cells@.len(),
            n <= 256,
            0 <= p <= n,
            total == manhattan_upto(a.cells@, b.cells@, sz, p as int),
            0 <= total <= 32 * (p as int),
        decreases n - p,
    {
        let v = a.cells[p];
        if v != 0 {
            proof {
                assert(b.cells@.contains(v));
                lemma_first_pos(b.cells@, v);
                lemma_div_mod_in_range(first_pos(b.cells@, v), sz);
                lemma_div_mod_in_range(p as int, sz);
            }
            let (tx, ty) = b.coord(v);
            let x = (p % a.size) as i32;
            let y = (p / a.size) as i32;
            let dx = if tx >= x {
                tx - x
            } else {
                x - tx
            };
            let dy = if ty >= y {
                ty - y
            } else {
                y - ty
            };
            total = total + dx + dy;
        }
        p += 1;
    }
    total
}

/// Misplaced-tile count with the conjunctive condition: a tile counts only
/// when both its column and its row differ from the goal's.
pub fn hamming(a: &State, b: &State) -> (r: i32)
    requires
        a.wf(),
        b.wf(),
        a.size == b.size,
    ensures
        r == hamming_distance(a.cells@, b.cells@, a.size as int),
        0 <= r <= 100000,
{
    let ghost sz = a.size as int;
    proof {
        assert(sz * sz <= 256) by (nonlinear_arith)
            requires
                0 <= sz <= 16,
        ;
    }
    let n = a.cells.len();
    let mut total: i32 = 0;
    let mut p: usize = 0;
    while p < n
        invariant
            a.wf(),
            b.wf(),
            a.size == b.size,
            sz == a.size as int,
            n == a.cells@.len(),
            n <= 256,
            0 <= p <= n,
            total == hamming_upto(a.cells@, b.cells@, sz, p as int),
            0 <= total <= p as int,
        decreases n - p,
    {
        let v = a.cells[p];
        if v != 0 {
            proof {
                assert(b.cells@.contains(v));
                lemma_first_pos(b.cells@, v);
                lemma_div_mod_in_range(first_pos(b.cells@, v), sz);
                lemma_div_mod_in_range(p as int, sz);
            }
            let (tx, ty) = b.coord(v);
            let x = (p % a.size) as i32;
            let y = (p / a.size) as i32;
            if tx != x && ty != y {
                total = total + 1;
            }
        }
        p += 1;
    }
    total
}

/// Manhattan distance plus two moves for every linear conflict.
pub fn linear_conflict_manhattan(a: &State, b: &State) -> (r: i32)
    requires
        a.wf(),
        b.wf(),
        a.size == b.size,
    ensures
        r == linear_conflict_distance(a.cells@, b.cells@, a.size as int),
        0 <= r <= 100000,
{
    let ghost sz = a.size as int;
    proof {
        assert(sz * sz <= 256) by (nonlinear_arith)
            requires
                0 <= sz <= 16,
        ;
    }
    let n = a.cells.len();
    let mut manh: i32 = 0;
    let mut confl: i32 = 0;
    let mut p: usize = 0;
    while p < n
        invariant
            a.wf(),
            b.wf(),
            a.size == b.size,
            sz == a.size as int,
            n == a.cells@.len(),
            n <= 256,
            0 <= p <= n,
            manh == manhattan_upto(a.cells@, b.cells@, sz, p as int),
            0 <= manh <= 32 * (p as int),
            confl == conflicts_upto(a.cells@, b.cells@, sz, p as int),
            0 <= confl <= 32 * (p as int),
        decreases n - p,
    {
        let v = a.cells[p];
        if v != 0 {
            proof {
                assert(b.cells@.contains(v));
                lemma_first_pos(b.cells@, v);
                lemma_div_mod_in_range(first_pos(b.cells@, v), sz);
                lemma_div_mod_in_range(p as int, sz);
            }
            let (tx, ty) = b.coord(v);
            let x = (p % a.size) as i32;
            let y = (p / a.size) as i32;
            let dx = if tx >= x {
                tx - x
            } else {
                x - tx
            };
            let dy = if ty >= y {
                ty - y
            } else {
                y - ty
            };
            manh = manh + dx + dy;
            if tx == x {
                let mut row: usize = p / a.size;
                while row < a.size
                    invariant
                        a.wf(),
                        b.wf(),
                        a.size == b.size,
                        sz == a.size as int,
                        n == a.cells@.len(),
                        n <= 256,
                        0 <= p < n,
                        v == a.cells@[p as int],
                        v != 0,
                        tx == first_pos(b.cells@, v) % sz,
                        ty == first_pos(b.cells@, v) / sz,
                        x == (p as int) % sz,
                        tx == x,
                        p as int / sz <= row as int <= sz,
                        confl == conflicts_upto(a.cells@, b.cells@, sz, p as int)
                            + col_conflicts(a.cells@, b.cells@, sz, p as int, row as int),
                        0 <= confl <= 32 * (p as int) + (row as int),
                    decreases a.size - row,
                {
                    proof {
                        lemma_cell_index_bounds(x as int, row as int, sz);
                    }
                    let o = a.cells[(x as usize) + row * a.size];
                    if o != 0 {
                        proof {
                            assert(b.cells@.contains(o));
                            lemma_first_pos(b.cells@, o);
                            lemma_div_mod_in_range(first_pos(b.cells@, o), sz);
                        }
                        let (ox, oy) = b.coord(o);
                        if ox == x && oy < ty {
                            confl = confl + 1;
                        }
                    }
                    row += 1;
                }
            }
            if ty == y {
                let mut col: usize = p % a.size;
                while col < a.size
                    invariant
                        a.wf(),
                        b.wf(),
                        a.size == b.size,
                        sz == a.size as int,
                        n == a.cells@.len(),
                        n <= 256,
                        0 <= p < n,
                        v == a.cells@[p as int],
                        v != 0,
                        tx == first_pos(b.cells@, v) % sz,
                        ty == first_pos(b.cells@, v) / sz,
                        x == (p as int) % sz,
                        y == (p as int) / sz,
                        0 <= y < sz,
                        tx == x || !col_aligned(a.cells@, b.cells@, sz, p as int),
                        ty == y,
                        p as int % sz <= col as int <= sz,
                        confl == conflicts_upto(a.cells@, b.cells@, sz, p as int) + (if
                        col_aligned(a.cells@, b.cells@, sz, p as int) {
                            col_conflicts(a.cells@, b.cells@, sz, p as int, sz)
                        } else {
                            0int
                        }) + row_conflicts(a.cells@, b.cells@, sz, p as int, col as int),
                        0 <= confl <= 32 * (p as int) + 16 + (col as int),
                    decreases a.size - col,
                {
                    proof {
                        lemma_cell_index_bounds(col as int, y as int, sz);
                    }
                    let o = a.cells[col + (y as usize) * a.size];
                    if o != 0 {
                        proof {
                            assert(b.cells@.contains(o));
                            lemma_first_pos(b.cells@, o);
                            lemma_div_mod_in_range(first_pos(b.cells@, o), sz);
                        }
                        let (ox, oy) = b.coord(o);
                        if oy == y && ox < tx {
                            confl = confl + 1;
                        }
                    }
                    col += 1;
                }
            }
        }
        p += 1;
    }
    manh + 2 * confl
}

/// The value of the selected estimator between a state and the goal.
pub fn evaluate(h: Heuristic, a: &State, b: &State) -> (r: i32)
    requires
        a.wf(),
        b.wf(),
        a.size == b.size,
    ensures
        r == heuristic_value(h, a.cells@, b.cells@, a.size as int),
        0 <= r <= 100000,
{
    match h {
        Heuristic::Manhattan => manhattan(a, b),
        Heuristic::Hamming => hamming(a, b),
        Heuristic::LinearConflictManhattan => linear_conflict_manhattan(a, b),
    }
}

} // verus!
