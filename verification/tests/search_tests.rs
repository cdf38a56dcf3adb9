use std::collections::{HashMap, VecDeque};

use n_puzzle::algorithm::heuristic::{self, Heuristic};
use n_puzzle::algorithm::search_type::SearchType;
use n_puzzle::algorithm::{a_star, has_solution, w_a_star};
use n_puzzle::puzzle::{Solution, State};

const GOAL3: [u8; 9] = [1, 2, 3, 8, 0, 4, 7, 6, 5];

fn state3(cells: [u8; 9]) -> State {
    State::new(3, cells.to_vec())
}

fn pack(cells: &[u8]) -> u64 {
    let mut key: u64 = 0;
    for &c in cells {
        key = (key << 4) | (c as u64);
    }
    key
}

fn slides(cells: &[u8]) -> Vec<Vec<u8>> {
    let blank = cells.iter().position(|&c| c == 0).unwrap();
    let (bx, by) = (blank % 3, blank / 3);
    let mut out = Vec::new();
    let mut push = (|tx: usize, ty: usize| {
        let t = tx + ty * 3;
        let mut next = cells.to_vec();
        next.swap(blank, t);
        out.push(next);
    });
    if bx > 0 {
        push(bx - 1, by);
    }
    if bx < 2 {
        push(bx + 1, by);
    }
    if by > 0 {
        push(bx, by - 1);
    }
    if by < 2 {
        push(bx, by + 1);
    }
    out
}

/// Breadth-first distances from the goal over every reachable configuration.
fn bfs_distances() -> HashMap<u64, (Vec<u8>, u32)> {
    let mut dist: HashMap<u64, (Vec<u8>, u32)> = HashMap::new();
    let goal = GOAL3.to_vec();
    dist.insert(pack(&goal), (goal.clone(), 0));
    let mut queue = VecDeque::new();
    queue.push_back(goal);
    while let Some(cur) = queue.pop_front() {
        let d = dist[&pack(&cur)].1;
        for next in slides(&cur) {
            let key = pack(&next);
            if !dist.contains_key(&key) {
                dist.insert(key, (next.clone(), d + 1));
                queue.push_back(next);
            }
        }
    }
    dist
}

fn move_count(sol: &Solution) -> usize {
    sol.moves().as_ref().unwrap().len() - 1
}

#[test]
fn solvability_check_matches_bfs_reachability_on_all_configurations() {
    let reachable = bfs_distances();
    assert_eq!(reachable.len(), 181440);
    let goal = State::goal(3);
    // walk all 9! arrangements with Heap's algorithm
    let mut cells: [u8; 9] = [0, 1, 2, 3, 4, 5, 6, 7, 8];
    let mut stack = [0usize; 9];
    let mut i: usize = 0;
    let state = state3(cells);
    assert_eq!(
        has_solution(&state, &goal),
        reachable.contains_key(&pack(&cells))
    );
    while i < 9 {
        if stack[i] < i {
            if i % 2 == 0 {
                cells.swap(0, i);
            } else {
                cells.swap(stack[i], i);
            }
            let state = state3(cells);
            assert_eq!(
                has_solution(&state, &goal),
                reachable.contains_key(&pack(&cells)),
                "disagreement on {:?}",
                cells
            );
            stack[i] += 1;
            i = 0;
        } else {
            stack[i] = 0;
            i += 1;
        }
    }
}

#[test]
fn heuristics_never_exceed_the_true_distance() {
    let reachable = bfs_distances();
    let goal = State::goal(3);
    for (k, (cells, d)) in reachable.iter() {
        if k % 37 != 0 {
            continue;
        }
        let s = State::new(3, cells.clone());
        assert!(heuristic::manhattan(&s, &goal) <= *d as i32);
        assert!(heuristic::hamming(&s, &goal) <= *d as i32);
        assert!(heuristic::linear_conflict_manhattan(&s, &goal) <= *d as i32);
    }
}

#[test]
fn unweighted_best_first_returns_optimal_lengths() {
    let reachable = bfs_distances();
    let mut tested: usize = 0;
    for (k, (cells, d)) in reachable.iter() {
        if *d > 12 || k % 97 != 0 || tested >= 40 {
            continue;
        }
        let start = State::new(3, cells.clone());
        let sol = a_star(start, State::goal(3), Heuristic::Manhattan);
        assert!(sol.moves().is_some());
        assert_eq!(move_count(&sol) as u32, *d, "suboptimal on {:?}", cells);
        tested += 1;
    }
    assert!(tested >= 10);
}

#[test]
fn returned_moves_replay_from_start_to_goal() {
    let start_cells = [2, 8, 3, 1, 4, 5, 7, 6, 0];
    let start = state3(start_cells);
    let goal = State::goal(3);
    assert!(has_solution(&start, &goal));
    let sol = a_star(start, State::goal(3), Heuristic::LinearConflictManhattan);
    let moves = sol.moves().as_ref().unwrap();
    // goal-to-start order
    assert_eq!(moves[0].cells().as_slice(), &GOAL3);
    assert_eq!(moves[moves.len() - 1].cells().as_slice(), &start_cells);
    // replay: walking the list backward, every step is one legal slide
    for w in moves.windows(2) {
        let later = w[0].cells();
        let earlier = w[1].cells();
        assert_eq!(w[0].predecessor().as_ref().unwrap(), earlier);
        let diff: Vec<usize> =
            (0..9).filter(|&i| later[i] != earlier[i]).collect();
        assert_eq!(diff.len(), 2);
        assert!(earlier[diff[0]] == 0 || earlier[diff[1]] == 0);
        let (ax, ay) = (diff[0] % 3, diff[0] / 3);
        let (bx, by) = (diff[1] % 3, diff[1] / 3);
        assert_eq!(ax.abs_diff(bx) + ay.abs_diff(by), 1);
    }
}

#[test]
fn running_the_engine_twice_is_deterministic() {
    let cells = [2, 8, 3, 1, 4, 5, 7, 6, 0];
    let first = w_a_star(
        state3(cells),
        State::goal(3),
        Heuristic::Manhattan,
        SearchType::BestFirst,
        135,
    );
    let second = w_a_star(
        state3(cells),
        State::goal(3),
        Heuristic::Manhattan,
        SearchType::BestFirst,
        135,
    );
    assert_eq!(first.time_complexity(), second.time_complexity());
    assert_eq!(first.size_complexity(), second.size_complexity());
    let fm = first.moves().as_ref().unwrap();
    let sm = second.moves().as_ref().unwrap();
    assert_eq!(fm.len(), sm.len());
    for (a, b) in fm.iter().zip(sm.iter()) {
        assert_eq!(a.cells(), b.cells());
    }
}

#[test]
fn concrete_scramble_with_manhattan_best_first() {
    // the scramble [1,2,3,7,8,4,6,5,0] sits four slides from the spiral
    // goal (its Manhattan distance is already 4, and a four-slide replay
    // exists), so the optimal engine reports four moves
    let start = state3([1, 2, 3, 7, 8, 4, 6, 5, 0]);
    let goal = State::goal(3);
    assert!(has_solution(&start, &goal));
    let sol = a_star(start, State::goal(3), Heuristic::Manhattan);
    let moves = sol.moves().as_ref().unwrap();
    assert!(!moves.is_empty());
    assert_eq!(moves[0].cells().as_slice(), &GOAL3);
    assert_eq!(move_count(&sol), 4);
    assert!(sol.time_complexity() >= 1);
}

#[test]
fn start_equal_to_goal_returns_one_state_and_no_moves() {
    let sol = a_star(State::goal(3), State::goal(3), Heuristic::Manhattan);
    let moves = sol.moves().as_ref().unwrap();
    assert_eq!(moves.len(), 1);
    assert_eq!(move_count(&sol), 0);
    assert_eq!(moves[0].cells().as_slice(), &GOAL3);
    // the goal is extracted before anything is expanded into the closed set
    assert_eq!(sol.time_complexity(), 0);
}

#[test]
fn unsolvable_instance_is_rejected_before_any_expansion() {
    let start = state3([2, 1, 3, 8, 0, 4, 7, 6, 5]);
    let goal = State::goal(3);
    assert!(!has_solution(&start, &goal));
    // the check gates the engine, as the driver does: no search runs and
    // the counters stay at zero
    let sol = Solution::new();
    assert!(sol.moves().is_none());
    assert_eq!(sol.time_complexity(), 0);
    assert_eq!(sol.size_complexity(), 0);
}

#[test]
fn greedy_and_uniform_cost_still_reach_the_goal() {
    let cells = [2, 8, 3, 1, 4, 5, 7, 6, 0];
    let reachable = bfs_distances();
    let true_dist = reachable[&pack(&cells)].1 as usize;

    let uni = w_a_star(
        state3(cells),
        State::goal(3),
        Heuristic::Manhattan,
        SearchType::UniformCost,
        100,
    );
    assert_eq!(move_count(&uni), true_dist);

    let greedy = w_a_star(
        state3(cells),
        State::goal(3),
        Heuristic::Manhattan,
        SearchType::Greedy,
        100,
    );
    let gm = greedy.moves().as_ref().unwrap();
    assert_eq!(gm[0].cells().as_slice(), &GOAL3);
    assert!(gm.len() - 1 >= true_dist);
}

#[test]
fn weighted_search_still_replays_to_the_goal() {
    let cells = [2, 0, 3, 1, 8, 5, 7, 4, 6];
    let goal = State::goal(3);
    assert!(has_solution(&state3(cells), &goal));
    let sol = w_a_star(
        state3(cells),
        State::goal(3),
        Heuristic::LinearConflictManhattan,
        SearchType::BestFirst,
        250,
    );
    let moves = sol.moves().as_ref().unwrap();
    assert_eq!(moves[0].cells().as_slice(), &GOAL3);
    assert_eq!(moves[moves.len() - 1].cells().as_slice(), &cells);
}

#[test]
fn complexity_counters_grow_with_the_search() {
    let cells = [2, 8, 3, 1, 4, 5, 7, 6, 0];
    let sol = a_star(state3(cells), State::goal(3), Heuristic::Manhattan);
    assert!(sol.time_complexity() >= 1);
    assert!(sol.size_complexity() >= sol.time_complexity());
}
