//! Start-state generation and the validation rules a parsed puzzle must
//! meet before the search core may see it.

use vstd::prelude::*;

verus! {

use crate::puzzle::state::{
    State,
    corrupted,
    is_slide,
    is_slide_path,
    reachable,
    spiral_cells,
    wf_cells,
};

/// The ways a puzzle definition can be rejected.
#[derive(Clone, Copy, Debug, PartialEq, Eq, Structural)]
pub enum Error {
    /// The size line is missing or holds more than one number.
    NoSizeSpecified,
    /// The file could not be read at all.
    FailedFileReading,
    /// A row holds the wrong number of cells: expected, found.
    SizeNotRespected(usize, usize),
    /// The declared size is below 3.
    SizeNotBigEnough(usize),
    /// A token could not be parsed as a tile number.
    InvalidNumber,
    /// A tile is out of range or appears twice.
    InvalidTile(u8),
    /// The cell count does not match the declared size.
    BadPuzzle,
}

/// A start state generated by `iteration` random legal slides from the
/// goal, optionally corrupted afterwards (two adjacent cells swapped) so
/// that no solution exists.
pub fn random(size: usize, solvable: bool, iteration: usize) -> (r: State)
    requires
        3 <= size <= 15,
    ensures
        r.wf(),
        r.size == size,
        r.cost == 0,
        r.score == 0,
        r.moved is None,
        r.predecessor is None,
        wf_cells(spiral_cells(size as int), size as int) ==> exists|c: Seq<u8>|
            #![auto]
            reachable(spiral_cells(size as int), c, size as int) && r.cells@ == (if solvable {
                c
            } else {
                corrupted(c, size as int)
            }),
{
    let ghost sz = size as int;
    let mut state = State::goal(size);
    let ghost mut path: Seq<Seq<u8>> = seq![state.cells@];
    let mut i: usize = 0;
    while i < iteration
        invariant
            state.wf(),
            state.size == size,
            sz == size as int,
            state.cost == 0,
            state.score == 0,
            state.moved is None,
            state.predecessor is None,
            0 <= i <= iteration,
            path.len() >= 1,
            path[path.len() - 1] == state.cells@,
            is_slide_path(path, sz),
            wf_cells(spiral_cells(sz), sz) ==> path[0] == spiral_cells(sz),
        decreases iteration - i,
    {
        let ghost prev = state.cells@;
        state.shuffle();
        proof {
            let ghost longer = path.push(state.cells@);
            assert(longer[longer.len() - 2] == prev);
            assert forall|k: int|
                0 <= k < longer.len() - 1 implies is_slide(longer[k], #[trigger] longer[k + 1], sz) by {
                if k < path.len() - 1 {
                    assert(longer[k] == path[k]);
                    assert(longer[k + 1] == path[k + 1]);
                    assert(is_slide(path[k], path[k + 1], sz));
                }
            }
            path = longer;
        }
        i += 1;
    }
    let ghost walked = state.cells@;
    proof {
        if wf_cells(spiral_cells(sz), sz) {
            assert(path.len() >= 1 && path[0] == spiral_cells(sz) && path[path.len() - 1] == walked
                && is_slide_path(path, sz));
            assert(reachable(spiral_cells(sz), walked, sz));
        }
    }
    if !solvable {
        state.corrupt();
    }
    state
}

/// The tile at `i` breaks the rules: out of range, or already used earlier.
pub open spec fn bad_tile_at(cells: Seq<u8>, area: int, i: int) -> bool {
    (cells[i] as int) >= area || exists|j: int| 0 <= j < i && cells[j] == cells[i]
}

/// First position holding a rule-breaking tile; `cells.len()` when none does.
pub open spec fn first_bad_tile(cells: Seq<u8>, area: int, k: int) -> int
    decreases cells.len() - k,
{
    if k < 0 || k >= cells.len() {
        k
    } else if bad_tile_at(cells, area, k) {
        k
    } else {
        first_bad_tile(cells, area, k + 1)
    }
}

/// What validation returns: the first failed check in the order the checks
/// run (size floor, cell count, then the first offending tile).
pub open spec fn check_cells_spec(size: usize, cells: Seq<u8>) -> Result<(), Error> {
    let area = (size as int) * (size as int);
    if size < 3 {
        Err(Error::SizeNotBigEnough(size))
    } else if cells.len() != area {
        Err(Error::BadPuzzle)
    } else if first_bad_tile(cells, area, 0) < cells.len() {
        Err(Error::InvalidTile(cells[first_bad_tile(cells, area, 0)]))
    } else {
        Ok(())
    }
}

/// `size * size` distinct values below `size * size` leave nothing out.
proof fn lemma_distinct_range_complete(cells: Seq<u8>, area: int)
    requires
        cells.len() == area,
        forall|i: int| 0 <= i < cells.len() ==> ((#[trigger] cells[i]) as int) < area,
        forall|i: int, j: int| 0 <= i < j < cells.len() ==> cells[i] != cells[j],
    ensures
        forall|v: u8| (v as int) < area ==> cells.contains(v),
{
    broadcast use vstd::seq_lib::seq_to_set_is_finite;

    let ints = cells.map_values(|v: u8| v as int);
    assert(ints.no_duplicates()) by {
        assert forall|i: int, j: int|
            0 <= i < ints.len() && 0 <= j < ints.len() && i != j implies ints[i] != ints[j] by {
            assert(ints[i] == cells[i] as int);
            assert(ints[j] == cells[j] as int);
        }
    }
    ints.unique_seq_to_set();
    let range = vstd::set_lib::set_int_range(0, area);
    vstd::set_lib::lemma_int_range(0, area);
    assert(ints.to_set().subset_of(range)) by {
        assert forall|x: int| ints.to_set().contains(x) implies range.contains(x) by {
            assert(ints.contains(x));
            let i = choose|i: int| 0 <= i < ints.len() && ints[i] == x;
            assert(ints[i] == cells[i] as int);
        }
    }
    vstd::set_lib::lemma_subset_equality(ints.to_set(), range);
    assert forall|v: u8| (v as int) < area implies cells.contains(v) by {
        assert(range.contains(v as int));
        assert(ints.to_set().contains(v as int));
        assert(ints.contains(v as int));
        let i = choose|i: int| 0 <= i < ints.len() && ints[i] == v as int;
        assert(cells[i] == v);
    }
}

/// Validate a parsed puzzle: the declared size must be at least 3, the cell
/// count must match it, and the tiles must be exactly the labels
/// `0 .. size * size`, each once.  Success is equivalent to the state
/// well-formedness the search core requires.
pub fn check_cells(size: usize, cells: &Vec<u8>) -> (r: Result<(), Error>)
    ensures
        r == check_cells_spec(size, cells@),
        r is Ok <==> wf_cells(cells@, size as int),
{
    let ghost sz = size as int;
    if size < 3 {
        return Err(Error::SizeNotBigEnough(size));
    }
    let area = match size.checked_mul(size) {
        Some(v) => v,
        None => {
            // a vector is never as long as an overflowing square; reading
            // its length makes the mismatch visible to the proof
            let n = cells.len();
            return Err(Error::BadPuzzle);
        },
    };
    proof {
        assert(sz >= 3 ==> sz * sz >= 9 && sz * sz >= sz) by (nonlinear_arith)
            requires
                3 <= sz,
                sz * sz == area as int,
        ;
        if size > 16 {
            assert(sz * sz > 256) by (nonlinear_arith)
                requires
                    sz > 16,
            ;
        }
    }
    if cells.len() != area {
        return Err(Error::BadPuzzle);
    }
    let mut seen: Vec<bool> = Vec::new();
    let mut fill: usize = 0;
    while fill < area
        invariant
            0 <= fill <= area,
            seen@.len() == fill,
            forall|u: int| 0 <= u < fill ==> !seen@[u],
        decreases area - fill,
    {
        seen.push(false);
        fill += 1;
    }
    let mut i: usize = 0;
    while i < area
        invariant
            3 <= size,
            sz == size as int,
            area == sz * sz,
            cells@.len() == area,
            seen@.len() == area,
            0 <= i <= area,
            forall|j: int| 0 <= j < i ==> !#[trigger] bad_tile_at(cells@, sz * sz, j),
            forall|u: int|
                0 <= u < area ==> (seen@[u] <==> exists|j: int|
                    0 <= j < i && ((#[trigger] cells@[j]) as int) == u),
        decreases area - i,
    {
        let c = cells[i];
        if (c as usize) >= area {
            proof {
                assert(bad_tile_at(cells@, sz * sz, i as int));
                lemma_first_bad_tile(cells@, sz * sz, i as int);
            }
            return Err(Error::InvalidTile(c));
        }
        if seen[c as usize] {
            proof {
                let j = choose|j: int| 0 <= j < i && (cells@[j] as int) == c as int;
                assert(cells@[j] == cells@[i as int]);
                assert(bad_tile_at(cells@, sz * sz, i as int));
                lemma_first_bad_tile(cells@, sz * sz, i as int);
            }
            return Err(Error::InvalidTile(c));
        }
        seen.set(c as usize, true);
        i += 1;
        proof {
            assert forall|u: int|
                0 <= u < area implies (seen@[u] <==> exists|j: int|
                    0 <= j < i && ((#[trigger] cells@[j]) as int) == u) by {
                if u == c as int {
                    assert((cells@[i - 1] as int) == u);
                }
            }
            assert(!bad_tile_at(cells@, sz * sz, i - 1));
        }
    }
    proof {
        lemma_no_bad_tile(cells@, sz * sz, 0);
        assert(first_bad_tile(cells@, sz * sz, 0) >= cells@.len());
        assert forall|a: int, b: int|
            0 <= a < b < cells@.len() implies cells@[a] != cells@[b] by {
            if cells@[a] == cells@[b] {
                assert(bad_tile_at(cells@, sz * sz, b));
            }
        }
        assert forall|a: int| 0 <= a < cells@.len() implies ((#[trigger] cells@[a]) as int) < sz
            * sz by {
            assert(!bad_tile_at(cells@, sz * sz, a));
        }
        lemma_distinct_range_complete(cells@, sz * sz);
        assert(size <= 16) by {
            if size > 16 {
                broadcast use vstd::seq_lib::seq_to_set_is_finite;

                let ints = cells@.map_values(|v: u8| v as int);
                assert(ints.no_duplicates()) by {
                    assert forall|a: int, b: int|
                        0 <= a < ints.len() && 0 <= b < ints.len() && a != b implies ints[a]
                        != ints[b] by {
                        assert(ints[a] == cells@[a] as int);
                        assert(ints[b] == cells@[b] as int);
                    }
                }
                ints.unique_seq_to_set();
                let bytes = vstd::set_lib::set_int_range(0, 256);
                vstd::set_lib::lemma_int_range(0, 256);
                assert(ints.to_set().subset_of(bytes)) by {
                    assert forall|x: int| ints.to_set().contains(x) implies bytes.contains(
                        x,
                    ) by {
                        assert(ints.contains(x));
                        let a = choose|a: int| 0 <= a < ints.len() && ints[a] == x;
                        assert(ints[a] == cells@[a] as int);
                    }
                }
                vstd::set_lib::lemma_len_subset(ints.to_set(), bytes);
                assert(sz * sz > 256) by (nonlinear_arith)
                    requires
                        sz > 16,
                ;
            }
        }
        assert(wf_cells(cells@, sz));
    }
    Ok(())
}

/// A scan that found a bad tile at `i`, none earlier, pins the spec's index.
proof fn lemma_first_bad_tile(cells: Seq<u8>, area: int, i: int)
    requires
        0 <= i < cells.len(),
        bad_tile_at(cells, area, i),
        forall|j: int| 0 <= j < i ==> !bad_tile_at(cells, area, j),
    ensures
        first_bad_tile(cells, area, 0) == i,
{
    lemma_first_bad_tile_from(cells, area, 0, i);
}

proof fn lemma_first_bad_tile_from(cells: Seq<u8>, area: int, k: int, i: int)
    requires
        0 <= k <= i < cells.len(),
        bad_tile_at(cells, area, i),
        forall|j: int| k <= j < i ==> !bad_tile_at(cells, area, j),
    ensures
        first_bad_tile(cells, area, k) == i,
    decreases i - k,
{
    if k < i {
        lemma_first_bad_tile_from(cells, area, k + 1, i);
    }
}

/// A scan that found no bad tile leaves the spec's index at the end.
proof fn lemma_no_bad_tile(cells: Seq<u8>, area: int, k: int)
    requires
        0 <= k <= cells.len(),
        forall|j: int| k <= j < cells.len() ==> !bad_tile_at(cells, area, j),
    ensures
        first_bad_tile(cells, area, k) == cells.len(),
    decreases cells.len() - k,
{
    if k < cells.len() {
        lemma_no_bad_tile(cells, area, k + 1);
    }
}

} // verus!
