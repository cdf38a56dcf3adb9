use n_puzzle::algorithm::heuristic::{self, Heuristic};
use n_puzzle::algorithm::search_type::{self, SearchType};
use n_puzzle::algorithm::{dynamic_weight, has_solution};
use n_puzzle::generation::{check_cells, random, Error};
use n_puzzle::puzzle::{Solution, State};

fn state3(cells: [u8; 9]) -> State {
    State::new(3, cells.to_vec())
}

#[test]
fn goal_size_3_is_the_spiral_layout() {
    let goal = State::goal(3);
    assert_eq!(goal.cells().as_slice(), &[1, 2, 3, 8, 0, 4, 7, 6, 5]);
    assert_eq!(goal.size(), 3);
    assert_eq!(*goal.cost(), 0);
    assert!(goal.predecessor().is_none());
}

#[test]
fn goal_size_4_is_the_spiral_layout() {
    let goal = State::goal(4);
    assert_eq!(
        goal.cells().as_slice(),
        &[1, 2, 3, 4, 12, 13, 14, 5, 11, 0, 15, 6, 10, 9, 8, 7]
    );
}

#[test]
fn goal_is_a_permutation_for_every_size() {
    for size in 3..=15usize {
        let goal = State::goal(size);
        let mut seen = vec![false; size * size];
        for &c in goal.cells().iter() {
            assert!((c as usize) < size * size);
            assert!(!seen[c as usize]);
            seen[c as usize] = true;
        }
    }
}

#[test]
fn access_and_coord_agree() {
    let s = state3([1, 2, 3, 7, 8, 4, 6, 5, 0]);
    assert_eq!(s.access(0, 0), 1);
    assert_eq!(s.access(2, 1), 4);
    assert_eq!(s.access(2, 2), 0);
    assert_eq!(s.coord(7), (0, 1));
    assert_eq!(s.coord(0), (2, 2));
    assert_eq!(s.coord(5), (1, 2));
}

#[test]
fn neighbors_of_a_corner_blank() {
    let s = state3([1, 2, 3, 7, 8, 4, 6, 5, 0]);
    let ns = s.neighbors();
    assert_eq!(ns.len(), 2);
    // left, then up
    assert_eq!(ns[0].cells().as_slice(), &[1, 2, 3, 7, 8, 4, 6, 0, 5]);
    assert_eq!(ns[1].cells().as_slice(), &[1, 2, 3, 7, 8, 0, 6, 5, 4]);
    for n in ns.iter() {
        assert_eq!(n.predecessor().as_ref().unwrap(), s.cells());
        assert_eq!(*n.cost(), 0);
    }
}

#[test]
fn neighbors_of_an_edge_blank() {
    let s = state3([1, 0, 3, 7, 8, 4, 6, 5, 2]);
    assert_eq!(s.neighbors().len(), 3);
}

#[test]
fn neighbors_of_a_centre_blank() {
    let s = State::goal(3);
    let ns = s.neighbors();
    assert_eq!(ns.len(), 4);
    // each neighbour differs from the parent by one adjacent swap with the blank
    for n in ns.iter() {
        let diff: Vec<usize> =
            (0..9).filter(|&i| s.cells()[i] != n.cells()[i]).collect();
        assert_eq!(diff.len(), 2);
        assert!(s.cells()[diff[0]] == 0 || s.cells()[diff[1]] == 0);
        let (a, b) = (diff[0], diff[1]);
        let (ax, ay) = (a % 3, a / 3);
        let (bx, by) = (b % 3, b / 3);
        assert_eq!(ax.abs_diff(bx) + ay.abs_diff(by), 1);
    }
}

#[test]
fn heuristics_are_zero_on_the_goal() {
    for size in [3usize, 4, 5] {
        let a = State::goal(size);
        let b = State::goal(size);
        assert_eq!(heuristic::manhattan(&a, &b), 0);
        assert_eq!(heuristic::hamming(&a, &b), 0);
        assert_eq!(heuristic::linear_conflict_manhattan(&a, &b), 0);
    }
}

#[test]
fn manhattan_concrete_value() {
    let s = state3([1, 2, 3, 7, 8, 4, 6, 5, 0]);
    let goal = State::goal(3);
    assert_eq!(heuristic::manhattan(&s, &goal), 4);
}

#[test]
fn hamming_counts_only_tiles_misplaced_on_both_axes() {
    let s = state3([1, 2, 3, 7, 8, 4, 6, 5, 0]);
    let goal = State::goal(3);
    // every misplaced tile here keeps one axis, so none is counted
    assert_eq!(heuristic::hamming(&s, &goal), 0);
    // here only tile 1 is off on both axes, so exactly one tile counts
    let t = state3([0, 2, 3, 8, 1, 4, 7, 6, 5]);
    assert_eq!(heuristic::hamming(&t, &goal), 1);
}

#[test]
fn linear_conflict_adds_two_per_conflict() {
    let goal = State::goal(3);
    let s = state3([1, 2, 3, 7, 8, 4, 6, 5, 0]);
    assert_eq!(heuristic::linear_conflict_manhattan(&s, &goal), 4);
    // swapping 2 and 3 in the top row creates one row conflict:
    // both stay row-aligned but their goal order is reversed
    let t = state3([1, 3, 2, 8, 0, 4, 7, 6, 5]);
    let manh = heuristic::manhattan(&t, &goal);
    assert_eq!(manh, 2);
    assert_eq!(heuristic::linear_conflict_manhattan(&t, &goal), manh + 2);
}

#[test]
fn arg_to_method_resolves_heuristic_names() {
    assert_eq!(heuristic::arg_to_method("manhattan"), Some(Heuristic::Manhattan));
    assert_eq!(heuristic::arg_to_method("hamming"), Some(Heuristic::Hamming));
    assert_eq!(
        heuristic::arg_to_method("linear_conflict+manhattan"),
        Some(Heuristic::LinearConflictManhattan)
    );
    assert_eq!(heuristic::arg_to_method("euclidean"), None);
    assert_eq!(heuristic::arg_to_method(""), None);
}

#[test]
fn arg_to_method_resolves_search_type_names() {
    assert_eq!(
        search_type::arg_to_method("uniform_cost"),
        Some(SearchType::UniformCost)
    );
    assert_eq!(search_type::arg_to_method("greedy"), Some(SearchType::Greedy));
    assert_eq!(
        search_type::arg_to_method("best_first"),
        Some(SearchType::BestFirst)
    );
    assert_eq!(search_type::arg_to_method("dijkstra"), None);
}

#[test]
fn score_policies() {
    assert_eq!(search_type::best_first(3, 4), 7);
    assert_eq!(search_type::uniform_cost(3, 4), 3);
    assert_eq!(search_type::greedy(3, 4), 4);
}

#[test]
fn dynamic_weight_table() {
    assert_eq!(dynamic_weight(3), 100);
    assert_eq!(dynamic_weight(4), 135);
    assert_eq!(dynamic_weight(5), 250);
    assert_eq!(dynamic_weight(6), 400);
    assert_eq!(dynamic_weight(7), 1000);
    assert_eq!(dynamic_weight(12), 1000);
}

#[test]
fn solvability_of_concrete_states() {
    let goal = State::goal(3);
    let solved = State::goal(3);
    assert!(has_solution(&solved, &goal));
    // one slide away stays solvable
    let s = state3([1, 2, 3, 8, 4, 0, 7, 6, 5]);
    assert!(has_solution(&s, &goal));
    // swapping two adjacent tiles flips the parity
    let bad = state3([2, 1, 3, 8, 0, 4, 7, 6, 5]);
    assert!(!has_solution(&bad, &goal));
}

#[test]
fn count_inversion_concrete() {
    let goal = State::goal(3);
    assert_eq!(State::goal(3).count_inversion(&goal), 0);
    let bad = state3([2, 1, 3, 8, 0, 4, 7, 6, 5]);
    assert_eq!(bad.count_inversion(&goal), 1);
}

#[test]
fn row_of_empty_concrete() {
    let goal = State::goal(3);
    let s = state3([1, 2, 3, 7, 8, 4, 6, 5, 0]);
    assert_eq!(s.row_of_empty(&goal), 1);
    assert_eq!(State::goal(3).row_of_empty(&goal), 0);
}

#[test]
fn corrupt_swaps_two_adjacent_non_blank_cells() {
    let mut s = state3([1, 2, 3, 8, 0, 4, 7, 6, 5]);
    s.corrupt();
    assert_eq!(s.cells().as_slice(), &[2, 1, 3, 8, 0, 4, 7, 6, 5]);
    // when the blank sits in one of the first two cells, the swap moves to
    // the second row, away from the blank
    let mut t = state3([0, 2, 3, 8, 1, 4, 7, 6, 5]);
    t.corrupt();
    assert_eq!(t.cells().as_slice(), &[0, 2, 3, 1, 8, 4, 7, 6, 5]);
}

#[test]
fn corrupt_flips_solvability_even_with_the_blank_in_the_second_cell() {
    let goal = State::goal(3);
    let mut t = state3([1, 0, 3, 8, 2, 4, 7, 6, 5]);
    let before = has_solution(&t, &goal);
    t.corrupt();
    // the swapped pair is in the second row, so the blank never moves and
    // the parity flips
    assert_eq!(t.coord(0), (1, 0));
    assert_eq!(has_solution(&t, &goal), !before);
}

#[test]
fn shuffle_moves_to_a_neighbour() {
    let mut s = State::goal(3);
    let before = s.cells().clone();
    s.shuffle();
    let after = s.cells().clone();
    let diff: Vec<usize> = (0..9).filter(|&i| before[i] != after[i]).collect();
    assert_eq!(diff.len(), 2);
    assert!(before[diff[0]] == 0 || before[diff[1]] == 0);
}

#[test]
fn random_generates_solvable_and_unsolvable_starts() {
    let goal = State::goal(3);
    for iterations in [100, 101, 50, 51] {
        let s = random(3, true, iterations);
        assert_eq!(s.size(), 3);
        assert!(has_solution(&s, &goal));
        let u = random(3, false, iterations);
        assert!(!has_solution(&u, &goal));
    }
    let big = random(4, true, 50);
    assert_eq!(big.size(), 4);
}

#[test]
fn update_complexity_counts_and_keeps_the_high_water_mark() {
    let mut sol = Solution::new();
    sol.update_complexity(5);
    assert_eq!(sol.time_complexity(), 1);
    assert_eq!(sol.size_complexity(), 5);
    sol.update_complexity(3);
    assert_eq!(sol.time_complexity(), 2);
    assert_eq!(sol.size_complexity(), 5);
    sol.update_complexity(9);
    assert_eq!(sol.time_complexity(), 3);
    assert_eq!(sol.size_complexity(), 9);
}

#[test]
fn check_cells_accepts_a_valid_puzzle() {
    assert_eq!(check_cells(3, &vec![1, 2, 3, 8, 0, 4, 7, 6, 5]), Ok(()));
    assert_eq!(check_cells(3, &vec![0, 1, 2, 3, 4, 5, 6, 7, 8]), Ok(()));
}

#[test]
fn check_cells_rejects_a_small_size() {
    assert_eq!(
        check_cells(2, &vec![0, 1, 2, 3]),
        Err(Error::SizeNotBigEnough(2))
    );
}

#[test]
fn check_cells_rejects_a_wrong_cell_count() {
    assert_eq!(check_cells(3, &vec![0, 1, 2, 3]), Err(Error::BadPuzzle));
}

#[test]
fn check_cells_rejects_an_out_of_range_tile() {
    assert_eq!(
        check_cells(3, &vec![1, 2, 3, 8, 0, 4, 7, 6, 9]),
        Err(Error::InvalidTile(9))
    );
}

#[test]
fn check_cells_rejects_a_duplicate_tile() {
    assert_eq!(
        check_cells(3, &vec![1, 2, 3, 8, 0, 4, 7, 6, 4]),
        Err(Error::InvalidTile(4))
    );
}
