//! The search side of the library: distance estimators, score policies, the
//! parity-based solvability check, and the weighted best-first engine.

pub mod heuristic;
pub mod search_type;

pub use heuristic::Heuristic;
pub use search_type::SearchType;

use vstd::prelude::*;

verus! {

use crate::puzzle::solution::{Solution, chain, closed_ok, lemma_chain_properties, state_ok};
use crate::puzzle::state::{
    State,
    adjacent,
    blank_pos,
    blank_row_dist,
    cells_equal,
    find_key,
    inversion_count,
    is_slide,
    is_slide_path,
    key_in,
    lemma_adjacent_in_targets,
    lemma_slide_changes,
    neighbor_shape,
    neighbor_targets,
    reachable,
    swap_seq,
};
use crate::algorithm::heuristic::evaluate;
use crate::algorithm::search_type::compute_score;

/// The parity criterion for reachability: on odd grids the inversion count
/// must be even; on even grids the inversion count plus the blank's row
/// distance must be.
pub open spec fn solvable(cells: Seq<u8>, goal: Seq<u8>, size: int) -> bool {
    if size % 2 == 0 {
        (inversion_count(cells, goal) + blank_row_dist(cells, goal, size)) % 2 == 0
    } else {
        inversion_count(cells, goal) % 2 == 0
    }
}

/// Decide, before any search, whether the goal is reachable from the start.
pub fn has_solution(start: &State, goal: &State) -> (r: bool)
    requires
        start.wf(),
        goal.wf(),
        start.size == goal.size,
    ensures
        r == solvable(start.cells@, goal.cells@, start.size as int),
{
    proof {
        assert(start.size * start.size <= 256) by (nonlinear_arith)
            requires
                0 <= start.size <= 16,
        ;
        assert(start.cells@.len() * start.cells@.len() <= 65536) by (nonlinear_arith)
            requires
                0 <= start.cells@.len() <= 256,
        ;
    }
    let inversions = start.count_inversion(goal);
    if start.size() % 2 == 0 {
        let empty_row = start.row_of_empty(goal);
        (inversions + empty_row) % 2 == 0
    } else {
        inversions % 2 == 0
    }
}

/// The weight, in hundredths, that best-first search applies to the
/// estimate when none is supplied: 1.0, 1.35, 2.5 and 4.0 for sizes 3 to 6,
/// and 10.0 from size 7 up.
pub open spec fn dynamic_weight_value(size: int) -> int {
    if size == 3 {
        100
    } else if size == 4 {
        135
    } else if size == 5 {
        250
    } else if size == 6 {
        400
    } else {
        1000
    }
}

/// The size-derived default weight, in hundredths.
pub fn dynamic_weight(size: usize) -> (r: u32)
    requires
        size >= 3,
    ensures
        r == dynamic_weight_value(size as int),
{
    if size == 3 {
        100
    } else if size == 4 {
        135
    } else if size == 5 {
        250
    } else if size == 6 {
        400
    } else {
        1000
    }
}

/// First index holding the smallest score; earlier entries win ties, so
/// extraction is reproducible.
pub open spec fn min_score_index(s: Seq<State>) -> int
    decreases s.len(),
{
    if s.len() <= 1 {
        0
    } else {
        let m = min_score_index(s.drop_last());
        if s[s.len() - 1].score < s[m].score {
            s.len() - 1
        } else {
            m
        }
    }
}

proof fn lemma_min_score_index(s: Seq<State>)
    requires
        s.len() > 0,
    ensures
        0 <= min_score_index(s) < s.len(),
        forall|j: int| 0 <= j < s.len() ==> s[min_score_index(s)].score <= (#[trigger] s[j]).score,
    decreases s.len(),
{
    if s.len() > 1 {
        lemma_min_score_index(s.drop_last());
        assert forall|j: int| 0 <= j < s.len() implies s[min_score_index(s)].score <= (
        #[trigger] s[j]).score by {
            if j < s.len() - 1 {
                assert(s.drop_last()[j] == s[j]);
                assert(s.drop_last()[min_score_index(s.drop_last())] == s[min_score_index(
                    s.drop_last(),
                )]);
            }
        }
    }
}

/// Extract the best-ranked state: the first one with the smallest score.
fn pop_min(frontier: &mut Vec<State>) -> (r: State)
    requires
        old(frontier)@.len() > 0,
    ensures
        r == old(frontier)@[min_score_index(old(frontier)@)],
        final(frontier)@ == old(frontier)@.remove(min_score_index(old(frontier)@)),
        forall|j: int|
            0 <= j < old(frontier)@.len() ==> r.score <= (#[trigger] old(frontier)@[j]).score,
{
    let mut best: usize = 0;
    let mut i: usize = 1;
    while i < frontier.len()
        invariant
            frontier@.len() > 0,
            1 <= i <= frontier@.len(),
            0 <= best < i,
            best as int == min_score_index(frontier@.subrange(0, i as int)),
        decreases frontier@.len() - i,
    {
        proof {
            assert(frontier@.subrange(0, i + 1).drop_last() =~= frontier@.subrange(0, i as int));
            assert(frontier@.subrange(0, i + 1)[i as int] == frontier@[i as int]);
            assert(frontier@.subrange(0, i as int)[best as int] == frontier@[best as int]);
        }
        if frontier[i].score < frontier[best].score {
            best = i;
        }
        i += 1;
    }
    proof {
        assert(frontier@.subrange(0, frontier@.len() as int) =~= frontier@);
        lemma_min_score_index(frontier@);
    }
    frontier.remove(best)
}

/// A state the expansion loop may still push: one slide away from the
/// state under expansion, carrying its configuration as predecessor key.
pub open spec fn nb_ok(nb: State, cur: State) -> bool {
    &&& nb.wf()
    &&& nb.size == cur.size
    &&& nb.predecessor is Some
    &&& nb.predecessor->0@ == cur.cells@
    &&& is_slide(cur.cells@, nb.cells@, cur.size as int)
}

/// A frontier entry outside the expansion phase: a `state_ok` state whose
/// predecessor, if any, is already closed.
pub open spec fn frontier_entry_ok(s: State, closed: Seq<State>, start: State) -> bool {
    &&& state_ok(s, start)
    &&& 0 <= s.cost <= closed.len()
    &&& (s.predecessor is Some ==> key_in(closed, s.predecessor->0@))
}

pub open spec fn frontier_ok(frontier: Seq<State>, closed: Seq<State>, start: State) -> bool {
    &&& forall|i: int|
        0 <= i < frontier.len() ==> frontier_entry_ok(#[trigger] frontier[i], closed, start)
    &&& forall|i: int, j: int|
        0 <= i < j < frontier.len() ==> frontier[i].cells@ != frontier[j].cells@
}

pub open spec fn sets_disjoint(frontier: Seq<State>, closed: Seq<State>) -> bool {
    forall|i: int, j: int|
        0 <= i < frontier.len() && 0 <= j < closed.len() ==> (#[trigger] frontier[i]).cells@ != (
        #[trigger] closed[j]).cells@
}

/// Every slide out of `s` leads to a configuration the search has already
/// filed or still holds in the frontier.
#[verifier::opaque]
pub open spec fn expansion_closed(s: State, closed: Seq<State>, frontier: Seq<State>) -> bool {
    forall|t: int|
        0 <= t < s.cells@.len() && adjacent(blank_pos(s.cells@), t, s.size as int) ==> key_in(
            closed,
            #[trigger] swap_seq(s.cells@, blank_pos(s.cells@), t),
        ) || key_in(frontier, swap_seq(s.cells@, blank_pos(s.cells@), t))
}

/// Every closed state has been fully expanded: none of its slides leads
/// outside the two sets.
#[verifier::opaque]
pub open spec fn closure_ok(closed: Seq<State>, frontier: Seq<State>) -> bool {
    forall|i: int|
        0 <= i < closed.len() ==> expansion_closed(#[trigger] closed[i], closed, frontier)
}

/// The expansion-phase form: a slide may also lead to the configuration of
/// the state under expansion, which is filed only once its neighbours are
/// processed.
#[verifier::opaque]
pub open spec fn expansion_closed_mid(
    s: State,
    closed: Seq<State>,
    frontier: Seq<State>,
    pending: Seq<u8>,
) -> bool {
    forall|t: int|
        0 <= t < s.cells@.len() && adjacent(blank_pos(s.cells@), t, s.size as int) ==> key_in(
            closed,
            #[trigger] swap_seq(s.cells@, blank_pos(s.cells@), t),
        ) || key_in(frontier, swap_seq(s.cells@, blank_pos(s.cells@), t)) || swap_seq(
            s.cells@,
            blank_pos(s.cells@),
            t,
        ) == pending
}

#[verifier::opaque]
pub open spec fn closure_mid_ok(closed: Seq<State>, frontier: Seq<State>, pending: Seq<u8>) -> bool {
    forall|i: int|
        0 <= i < closed.len() ==> expansion_closed_mid(
            #[trigger] closed[i],
            closed,
            frontier,
            pending,
        )
}

/// What every completed search promises of a returned move sequence: it
/// runs from the goal configuration back to the start, one slide at a time,
/// along the recorded predecessor keys.
pub open spec fn moves_ok(ms: Seq<State>, start: State, goal: State) -> bool {
    &&& ms.len() >= 1
    &&& ms[0].cells@ == goal.cells@
    &&& ms[ms.len() - 1].cells@ == start.cells@
    &&& ms[ms.len() - 1].predecessor is None
    &&& forall|i: int| 0 <= i < ms.len() ==> (#[trigger] ms[i]).wf() && ms[i].size == start.size
    &&& forall|i: int|
        0 <= i < ms.len() - 1 ==> ((#[trigger] ms[i]).predecessor is Some
            && ms[i].predecessor->0@ == ms[i + 1].cells@ && is_slide(
            ms[i + 1].cells@,
            ms[i].cells@,
            start.size as int,
        ))
}

/// Extracting the ranked minimum keeps every frontier and bookkeeping
/// property; the extracted state is a sound frontier entry not yet closed.
proof fn lemma_frontier_after_pop(
    fpre: Seq<State>,
    fpost: Seq<State>,
    closed: Seq<State>,
    start: State,
    current: State,
)
    requires
        fpre.len() > 0,
        forall|i: int| 0 <= i < fpre.len() ==> frontier_entry_ok(#[trigger] fpre[i], closed, start),
        forall|i: int, j: int| 0 <= i < j < fpre.len() ==> fpre[i].cells@ != fpre[j].cells@,
        sets_disjoint(fpre, closed),
        closure_ok(closed, fpre),
        current == fpre[min_score_index(fpre)],
        fpost == fpre.remove(min_score_index(fpre)),
    ensures
        frontier_entry_ok(current, closed, start),
        forall|i: int|
            0 <= i < fpost.len() ==> frontier_entry_ok(#[trigger] fpost[i], closed, start),
        forall|i: int, j: int| 0 <= i < j < fpost.len() ==> fpost[i].cells@ != fpost[j].cells@,
        sets_disjoint(fpost, closed),
        forall|i: int| 0 <= i < fpost.len() ==> (#[trigger] fpost[i]).cells@ != current.cells@,
        !key_in(closed, current.cells@),
        closure_mid_ok(closed, fpost, current.cells@),
{
    reveal(expansion_closed);
    reveal(closure_ok);
    reveal(expansion_closed_mid);
    reveal(closure_mid_ok);
    let mi = min_score_index(fpre);
    lemma_min_score_index(fpre);
    assert(forall|i: int| 0 <= i < mi ==> fpost[i] == fpre[i]);
    assert(forall|i: int| mi <= i < fpost.len() ==> fpost[i] == fpre[i + 1]);
    assert forall|i: int|
        0 <= i < fpost.len() implies frontier_entry_ok(#[trigger] fpost[i], closed, start) by {
        if i < mi {
            assert(fpost[i] == fpre[i]);
        } else {
            assert(fpost[i] == fpre[i + 1]);
        }
    }
    assert forall|i: int, j: int|
        0 <= i < j < fpost.len() implies fpost[i].cells@ != fpost[j].cells@ by {
        let oi = if i < mi {
            i
        } else {
            i + 1
        };
        let oj = if j < mi {
            j
        } else {
            j + 1
        };
        assert(fpost[i] == fpre[oi]);
        assert(fpost[j] == fpre[oj]);
    }
    assert forall|i: int|
        0 <= i < fpost.len() implies (#[trigger] fpost[i]).cells@ != current.cells@ by {
        let oi = if i < mi {
            i
        } else {
            i + 1
        };
        assert(fpost[i] == fpre[oi]);
    }
    assert forall|i: int, j: int|
        0 <= i < fpost.len() && 0 <= j < closed.len() implies (#[trigger] fpost[i]).cells@ != (
    #[trigger] closed[j]).cells@ by {
        let oi = if i < mi {
            i
        } else {
            i + 1
        };
        assert(fpost[i] == fpre[oi]);
    }
    assert(!key_in(closed, current.cells@)) by {
        if key_in(closed, current.cells@) {
            let j = choose|j: int| 0 <= j < closed.len() && closed[j].cells@ == current.cells@;
            assert(fpre[mi].cells@ != closed[j].cells@);
        }
    }
    assert forall|c: int|
        0 <= c < closed.len() implies expansion_closed_mid(
        #[trigger] closed[c],
        closed,
        fpost,
        current.cells@,
    ) by {
        let sc = closed[c];
        assert(expansion_closed(sc, closed, fpre));
        assert forall|t: int|
            0 <= t < sc.cells@.len() && adjacent(blank_pos(sc.cells@), t, sc.size as int)
            implies key_in(closed, #[trigger] swap_seq(sc.cells@, blank_pos(sc.cells@), t))
            || key_in(fpost, swap_seq(sc.cells@, blank_pos(sc.cells@), t)) || swap_seq(
            sc.cells@,
            blank_pos(sc.cells@),
            t,
        ) == current.cells@ by {
            let child = swap_seq(sc.cells@, blank_pos(sc.cells@), t);
            if !key_in(closed, child) {
                let j = choose|j: int| 0 <= j < fpre.len() && fpre[j].cells@ == child;
                if j == mi {
                    assert(child == current.cells@);
                } else if j < mi {
                    assert(fpost[j] == fpre[j]);
                } else {
                    assert(fpost[j - 1] == fpre[j]);
                }
            }
        }
    }
}

/// A frontier entry while the expansion of `cur` is in flight: as
/// `frontier_entry_ok`, except that a predecessor key may also name `cur`,
/// which is only filed once all its neighbours are processed.
pub open spec fn mid_entry_ok(s: State, closed: Seq<State>, start: State, cur: State) -> bool {
    &&& s.wf()
    &&& s.size == start.size
    &&& 0 <= s.cost <= closed.len() + 1
    &&& (s.predecessor is None ==> s.cells@ == start.cells@)
    &&& (s.predecessor is Some ==> is_slide(s.predecessor->0@, s.cells@, start.size as int) && (
    key_in(closed, s.predecessor->0@) || s.predecessor->0@ == cur.cells@))
    &&& s.cells@ != cur.cells@
}

pub open spec fn frontier_mid_ok(
    frontier: Seq<State>,
    closed: Seq<State>,
    start: State,
    cur: State,
) -> bool {
    &&& forall|i: int|
        0 <= i < frontier.len() ==> mid_entry_ok(#[trigger] frontier[i], closed, start, cur)
    &&& forall|i: int, j: int|
        0 <= i < j < frontier.len() ==> frontier[i].cells@ != frontier[j].cells@
    &&& sets_disjoint(frontier, closed)
}

/// Starting an expansion only weakens what is known of the frontier.
proof fn lemma_enter_expansion(frontier: Seq<State>, closed: Seq<State>, start: State, cur: State)
    requires
        forall|i: int|
            0 <= i < frontier.len() ==> frontier_entry_ok(#[trigger] frontier[i], closed, start),
        forall|i: int, j: int|
            0 <= i < j < frontier.len() ==> frontier[i].cells@ != frontier[j].cells@,
        sets_disjoint(frontier, closed),
        forall|i: int| 0 <= i < frontier.len() ==> (#[trigger] frontier[i]).cells@ != cur.cells@,
    ensures
        frontier_mid_ok(frontier, closed, start, cur),
{
    assert forall|i: int|
        0 <= i < frontier.len() implies mid_entry_ok(#[trigger] frontier[i], closed, start, cur) by {
        assert(frontier_entry_ok(frontier[i], closed, start));
    }
}

/// Dropping a stale entry keeps the expansion-phase properties, and its
/// configuration no longer occurs.
proof fn lemma_mid_remove(
    fpre: Seq<State>,
    fpost: Seq<State>,
    closed: Seq<State>,
    start: State,
    cur: State,
    i: int,
)
    requires
        frontier_mid_ok(fpre, closed, start, cur),
        0 <= i < fpre.len(),
        fpost == fpre.remove(i),
    ensures
        frontier_mid_ok(fpost, closed, start, cur),
        !key_in(fpost, fpre[i].cells@),
        forall|key: Seq<u8>|
            #[trigger] key_in(fpre, key) ==> key_in(fpost, key) || key == fpre[i].cells@,
{
    assert(forall|k: int| 0 <= k < i ==> fpost[k] == fpre[k]);
    assert(forall|k: int| i <= k < fpost.len() ==> fpost[k] == fpre[k + 1]);
    assert forall|key: Seq<u8>|
        #[trigger] key_in(fpre, key) implies key_in(fpost, key) || key == fpre[i].cells@ by {
        let j = choose|j: int| 0 <= j < fpre.len() && fpre[j].cells@ == key;
        if j < i {
            assert(fpost[j].cells@ == key);
        } else if j > i {
            assert(fpost[j - 1].cells@ == key);
        }
    }
    assert forall|k: int|
        0 <= k < fpost.len() implies mid_entry_ok(#[trigger] fpost[k], closed, start, cur) by {
        if k < i {
            assert(fpost[k] == fpre[k]);
        } else {
            assert(fpost[k] == fpre[k + 1]);
        }
    }
    assert forall|k: int, l: int|
        0 <= k < l < fpost.len() implies fpost[k].cells@ != fpost[l].cells@ by {
        let ok = if k < i {
            k
        } else {
            k + 1
        };
        let ol = if l < i {
            l
        } else {
            l + 1
        };
        assert(fpost[k] == fpre[ok]);
        assert(fpost[l] == fpre[ol]);
    }
    assert forall|k: int, l: int|
        0 <= k < fpost.len() && 0 <= l < closed.len() implies (#[trigger] fpost[k]).cells@ != (
    #[trigger] closed[l]).cells@ by {
        let ok = if k < i {
            k
        } else {
            k + 1
        };
        assert(fpost[k] == fpre[ok]);
    }
    assert(!key_in(fpost, fpre[i].cells@)) by {
        if key_in(fpost, fpre[i].cells@) {
            let k = choose|k: int| 0 <= k < fpost.len() && fpost[k].cells@ == fpre[i].cells@;
            let ok = if k < i {
                k
            } else {
                k + 1
            };
            assert(fpost[k] == fpre[ok]);
            assert(ok != i);
        }
    }
}

/// Pushing a fresh, dedup-checked neighbour keeps the expansion-phase
/// properties.
proof fn lemma_mid_push(
    fpre: Seq<State>,
    fpost: Seq<State>,
    closed: Seq<State>,
    start: State,
    cur: State,
    nb: State,
)
    requires
        frontier_mid_ok(fpre, closed, start, cur),
        fpost == fpre.push(nb),
        mid_entry_ok(nb, closed, start, cur),
        !key_in(fpre, nb.cells@),
        !key_in(closed, nb.cells@),
    ensures
        frontier_mid_ok(fpost, closed, start, cur),
        key_in(fpost, nb.cells@),
        forall|key: Seq<u8>| #[trigger] key_in(fpre, key) ==> key_in(fpost, key),
{
    assert(forall|k: int| 0 <= k < fpre.len() ==> fpost[k] == fpre[k]);
    assert(fpost[fpre.len() as int] == nb);
    assert(fpost[fpre.len() as int].cells@ == nb.cells@);
    assert forall|key: Seq<u8>| #[trigger] key_in(fpre, key) implies key_in(fpost, key) by {
        let j = choose|j: int| 0 <= j < fpre.len() && fpre[j].cells@ == key;
        assert(fpost[j].cells@ == key);
    }
    assert forall|k: int, l: int|
        0 <= k < l < fpost.len() implies fpost[k].cells@ != fpost[l].cells@ by {
        if l == fpre.len() {
            if fpost[k].cells@ == nb.cells@ {
                assert(fpre[k].cells@ == nb.cells@);
            }
        }
    }
    assert forall|k: int, l: int|
        0 <= k < fpost.len() && 0 <= l < closed.len() implies (#[trigger] fpost[k]).cells@ != (
    #[trigger] closed[l]).cells@ by {
        if k == fpre.len() {
            if fpost[k].cells@ == closed[l].cells@ {
                assert(key_in(closed, nb.cells@));
            }
        } else {
            assert(fpost[k] == fpre[k]);
        }
    }
}

/// Once every generated neighbour is filed or frontier-held, every slide
/// out of the expanded state is covered.
proof fn lemma_cur_expanded(
    cur: State,
    all: Seq<State>,
    cpre: Seq<State>,
    cpost: Seq<State>,
    frontier: Seq<State>,
)
    requires
        cur.wf(),
        cpost == cpre.push(cur),
        all.len() == neighbor_targets(cur.cells@, cur.size as int).len(),
        forall|k: int|
            0 <= k < all.len() ==> (#[trigger] all[k]).cells@ == swap_seq(
                cur.cells@,
                blank_pos(cur.cells@),
                neighbor_targets(cur.cells@, cur.size as int)[k],
            ),
        forall|k: int|
            0 <= k < all.len() ==> key_in(cpre, (#[trigger] all[k]).cells@) || key_in(
                frontier,
                all[k].cells@,
            ),
    ensures
        expansion_closed(cur, cpost, frontier),
{
    reveal(expansion_closed);
    assert forall|t: int|
        0 <= t < cur.cells@.len() && adjacent(blank_pos(cur.cells@), t, cur.size as int)
        implies key_in(cpost, #[trigger] swap_seq(cur.cells@, blank_pos(cur.cells@), t)) || key_in(
        frontier,
        swap_seq(cur.cells@, blank_pos(cur.cells@), t),
    ) by {
        lemma_adjacent_in_targets(cur.cells@, cur.size as int, t);
        let k = choose|k: int|
            0 <= k < neighbor_targets(cur.cells@, cur.size as int).len() && neighbor_targets(
                cur.cells@,
                cur.size as int,
            )[k] == t;
        assert(all[k].cells@ == swap_seq(cur.cells@, blank_pos(cur.cells@), t));
        assert(key_in(cpre, all[k].cells@) || key_in(frontier, all[k].cells@));
        if key_in(cpre, all[k].cells@) {
            let j = choose|j: int| 0 <= j < cpre.len() && cpre[j].cells@ == all[k].cells@;
            assert(cpost[j].cells@ == all[k].cells@);
        }
    }
}

/// What the generated neighbour list gives the expansion loop: each entry
/// is a slide of the expanded state, at the matching target cell.
proof fn lemma_neighbors_facts(cur: State, all: Seq<State>)
    requires
        all.len() == neighbor_targets(cur.cells@, cur.size as int).len(),
        forall|k: int|
            0 <= k < all.len() ==> neighbor_shape(
                cur,
                #[trigger] all[k],
                neighbor_targets(cur.cells@, cur.size as int)[k],
            ),
    ensures
        forall|k: int| 0 <= k < all.len() ==> nb_ok(#[trigger] all[k], cur),
        forall|k: int|
            0 <= k < all.len() ==> (#[trigger] all[k]).cells@ == swap_seq(
                cur.cells@,
                blank_pos(cur.cells@),
                neighbor_targets(cur.cells@, cur.size as int)[k],
            ),
{
    assert forall|k: int| 0 <= k < all.len() implies nb_ok(#[trigger] all[k], cur) by {
        assert(neighbor_shape(cur, all[k], neighbor_targets(cur.cells@, cur.size as int)[k]));
    }
    assert forall|k: int|
        0 <= k < all.len() implies (#[trigger] all[k]).cells@ == swap_seq(
        cur.cells@,
        blank_pos(cur.cells@),
        neighbor_targets(cur.cells@, cur.size as int)[k],
    ) by {
        assert(neighbor_shape(cur, all[k], neighbor_targets(cur.cells@, cur.size as int)[k]));
    }
}

/// Filing the expanded state keeps the start filed or frontier-held and
/// keeps the goal out of the closed set.
proof fn lemma_keys_after_push(
    cpre: Seq<State>,
    cpost: Seq<State>,
    frontier: Seq<State>,
    cur: State,
    start: State,
    goal: State,
)
    requires
        cpost == cpre.push(cur),
        key_in(cpre, start.cells@) || key_in(frontier, start.cells@) || start.cells@ == cur.cells@,
        !key_in(cpre, goal.cells@),
        cur.cells@ != goal.cells@,
    ensures
        key_in(cpost, start.cells@) || key_in(frontier, start.cells@),
        !key_in(cpost, goal.cells@),
{
    if start.cells@ == cur.cells@ {
        assert(cpost[cpre.len() as int].cells@ == start.cells@);
    } else if key_in(cpre, start.cells@) {
        let j = choose|j: int| 0 <= j < cpre.len() && cpre[j].cells@ == start.cells@;
        assert(cpost[j].cells@ == start.cells@);
    }
    if key_in(cpost, goal.cells@) {
        let j = choose|j: int| 0 <= j < cpost.len() && cpost[j].cells@ == goal.cells@;
        if j < cpre.len() {
            assert(cpre[j].cells@ == goal.cells@);
        } else {
            assert(cpost[j] == cur);
        }
    }
}

/// Filing the expanded state restores every loop property: frontier
/// predecessors that named it are now closed, its own predecessor sits
/// strictly earlier, and no configuration repeats.
#[verifier::rlimit(60)]
proof fn lemma_closed_after_push(
    frontier: Seq<State>,
    cpre: Seq<State>,
    cpost: Seq<State>,
    start: State,
    cur: State,
)
    requires
        cpost == cpre.push(cur),
        closed_ok(cpre, start, cpre.len() as int),
        state_ok(cur, start),
        cur.predecessor is Some ==> key_in(cpre, cur.predecessor->0@),
        !key_in(cpre, cur.cells@),
        frontier_mid_ok(frontier, cpre, start, cur),
        closure_mid_ok(cpre, frontier, cur.cells@),
        expansion_closed(cur, cpost, frontier),
    ensures
        forall|i: int|
            0 <= i < frontier.len() ==> frontier_entry_ok(#[trigger] frontier[i], cpost, start),
        closed_ok(cpost, start, cpost.len() as int),
        sets_disjoint(frontier, cpost),
        closure_ok(cpost, frontier),
{
    reveal(expansion_closed);
    reveal(closure_ok);
    reveal(expansion_closed_mid);
    reveal(closure_mid_ok);
    assert(forall|i: int| 0 <= i < cpre.len() ==> cpost[i] == cpre[i]);
    assert(cpost[cpre.len() as int] == cur);
    assert forall|c: int|
        0 <= c < cpost.len() implies expansion_closed(#[trigger] cpost[c], cpost, frontier) by {
        if c < cpre.len() {
            let sc = cpre[c];
            assert(expansion_closed_mid(sc, cpre, frontier, cur.cells@));
            assert forall|t: int|
                0 <= t < sc.cells@.len() && adjacent(blank_pos(sc.cells@), t, sc.size as int)
                implies key_in(cpost, #[trigger] swap_seq(sc.cells@, blank_pos(sc.cells@), t))
                || key_in(frontier, swap_seq(sc.cells@, blank_pos(sc.cells@), t)) by {
                let child = swap_seq(sc.cells@, blank_pos(sc.cells@), t);
                if !key_in(frontier, child) {
                    if child == cur.cells@ {
                        assert(cpost[cpre.len() as int].cells@ == child);
                    } else {
                        let j = choose|j: int| 0 <= j < cpre.len() && cpre[j].cells@ == child;
                        assert(cpost[j].cells@ == child);
                    }
                }
            }
        }
    }
    assert forall|i: int|
        0 <= i < frontier.len() implies frontier_entry_ok(#[trigger] frontier[i], cpost, start) by {
        assert(mid_entry_ok(frontier[i], cpre, start, cur));
        if frontier[i].predecessor is Some {
            let p = frontier[i].predecessor->0@;
            if p == cur.cells@ {
                assert(cpost[cpre.len() as int].cells@ == p);
            } else {
                let j = choose|j: int| 0 <= j < cpre.len() && cpre[j].cells@ == p;
                assert(cpost[j].cells@ == p);
            }
        }
    }
    assert forall|i: int|
        0 <= i < cpost.len() implies ((#[trigger] cpost[i]).predecessor is Some ==> exists|j: int|
        0 <= j < i && cpost[j].cells@ == cpost[i].predecessor->0@) by {
        if i < cpre.len() {
            assert(cpost[i] == cpre[i]);
            if cpre[i].predecessor is Some {
                let j = choose|j: int| 0 <= j < i && cpre[j].cells@ == cpre[i].predecessor->0@;
                assert(cpost[j].cells@ == cpost[i].predecessor->0@);
            }
        } else {
            if cur.predecessor is Some {
                let j = choose|j: int|
                    0 <= j < cpre.len() && cpre[j].cells@ == cur.predecessor->0@;
                assert(cpost[j].cells@ == cpost[i].predecessor->0@);
            }
        }
    }
}

/// Pushing a state preserves the expansion-phase closure: keys only appear.
proof fn lemma_closure_push(
    closed: Seq<State>,
    fpre: Seq<State>,
    fpost: Seq<State>,
    pending: Seq<u8>,
    nb: State,
)
    requires
        closure_mid_ok(closed, fpre, pending),
        fpost == fpre.push(nb),
    ensures
        closure_mid_ok(closed, fpost, pending),
{
    reveal(expansion_closed_mid);
    reveal(closure_mid_ok);
    assert forall|c: int|
        0 <= c < closed.len() implies expansion_closed_mid(
        #[trigger] closed[c],
        closed,
        fpost,
        pending,
    ) by {
        let sc = closed[c];
        assert(expansion_closed_mid(sc, closed, fpre, pending));
        assert forall|t: int|
            0 <= t < sc.cells@.len() && adjacent(blank_pos(sc.cells@), t, sc.size as int)
            implies key_in(closed, #[trigger] swap_seq(sc.cells@, blank_pos(sc.cells@), t))
            || key_in(fpost, swap_seq(sc.cells@, blank_pos(sc.cells@), t)) || swap_seq(
            sc.cells@,
            blank_pos(sc.cells@),
            t,
        ) == pending by {
            let child = swap_seq(sc.cells@, blank_pos(sc.cells@), t);
            if key_in(fpre, child) {
                let j = choose|j: int| 0 <= j < fpre.len() && fpre[j].cells@ == child;
                assert(fpost[j].cells@ == child);
            }
        }
    }
}

/// Replacing a frontier entry by another with the same configuration
/// preserves the expansion-phase closure.
proof fn lemma_closure_replace(
    closed: Seq<State>,
    fpre: Seq<State>,
    fpost: Seq<State>,
    pending: Seq<u8>,
    i: int,
    nb: State,
)
    requires
        closure_mid_ok(closed, fpre, pending),
        0 <= i < fpre.len(),
        fpost == fpre.remove(i).push(nb),
        nb.cells@ == fpre[i].cells@,
    ensures
        closure_mid_ok(closed, fpost, pending),
{
    reveal(expansion_closed_mid);
    reveal(closure_mid_ok);
    let fmid = fpre.remove(i);
    assert forall|c: int|
        0 <= c < closed.len() implies expansion_closed_mid(
        #[trigger] closed[c],
        closed,
        fpost,
        pending,
    ) by {
        let sc = closed[c];
        assert(expansion_closed_mid(sc, closed, fpre, pending));
        assert forall|t: int|
            0 <= t < sc.cells@.len() && adjacent(blank_pos(sc.cells@), t, sc.size as int)
            implies key_in(closed, #[trigger] swap_seq(sc.cells@, blank_pos(sc.cells@), t))
            || key_in(fpost, swap_seq(sc.cells@, blank_pos(sc.cells@), t)) || swap_seq(
            sc.cells@,
            blank_pos(sc.cells@),
            t,
        ) == pending by {
            let child = swap_seq(sc.cells@, blank_pos(sc.cells@), t);
            if key_in(fpre, child) {
                let j = choose|j: int| 0 <= j < fpre.len() && fpre[j].cells@ == child;
                if j == i {
                    assert(fpost[fmid.len() as int].cells@ == child);
                } else if j < i {
                    assert(fpost[j].cells@ == child);
                } else {
                    assert(fpost[j - 1].cells@ == child);
                }
            }
        }
    }
}

/// Along any slide path out of a configuration the search has filed, a
/// fully-expanded closed set with an empty frontier covers every step.
proof fn lemma_path_in_closed(
    closed: Seq<State>,
    frontier: Seq<State>,
    p: Seq<Seq<u8>>,
    start: State,
    j: int,
)
    requires
        closed_ok(closed, start, closed.len() as int),
        closure_ok(closed, frontier),
        frontier.len() == 0,
        is_slide_path(p, start.size as int),
        0 <= j < p.len(),
        key_in(closed, p[0]),
    ensures
        key_in(closed, p[j]),
    decreases j,
{
    reveal(expansion_closed);
    reveal(closure_ok);
    if j > 0 {
        lemma_path_in_closed(closed, frontier, p, start, j - 1);
        let i = choose|i: int| 0 <= i < closed.len() && closed[i].cells@ == p[j - 1];
        assert(is_slide(p[j - 1], p[(j - 1) + 1], start.size as int));
        assert(is_slide(p[j - 1], p[j], start.size as int));
        let t = choose|t: int|
            0 <= t < p[j - 1].len() && adjacent(blank_pos(p[j - 1]), t, start.size as int) && p[j]
                == #[trigger] swap_seq(p[j - 1], blank_pos(p[j - 1]), t);
        assert(state_ok(closed[i], start));
        assert(expansion_closed(closed[i], closed, frontier));
        assert(key_in(closed, swap_seq(closed[i].cells@, blank_pos(closed[i].cells@), t))
            || key_in(frontier, swap_seq(closed[i].cells@, blank_pos(closed[i].cells@), t)));
        if key_in(frontier, p[j]) {
            let k = choose|k: int| 0 <= k < frontier.len() && frontier[k].cells@ == p[j];
        }
    }
}

/// A search that filed the start, expanded everything it filed, never filed
/// the goal, and holds nothing more to expand has proved the goal
/// unreachable.
proof fn lemma_exhausted_unreachable(
    closed: Seq<State>,
    frontier: Seq<State>,
    start: State,
    goal: State,
)
    requires
        closed_ok(closed, start, closed.len() as int),
        closure_ok(closed, frontier),
        frontier.len() == 0,
        key_in(closed, start.cells@),
        !key_in(closed, goal.cells@),
    ensures
        !reachable(start.cells@, goal.cells@, start.size as int),
{
    if reachable(start.cells@, goal.cells@, start.size as int) {
        let p = choose|p: Seq<Seq<u8>>|
            #![auto]
            p.len() >= 1 && p[0] == start.cells@ && p[p.len() - 1] == goal.cells@ && is_slide_path(
                p,
                start.size as int,
            );
        lemma_path_in_closed(closed, frontier, p, start, p.len() - 1);
        assert(false);
    }
}

/// Any returned move sequence witnesses that the goal is reachable from the
/// start: its reverse is a slide path.
pub proof fn lemma_moves_reachable(ms: Seq<State>, start: State, goal: State)
    requires
        moves_ok(ms, start, goal),
    ensures
        reachable(start.cells@, goal.cells@, start.size as int),
{
    let n = ms.len() as int;
    let p = Seq::new(n as nat, |i: int| ms[n - 1 - i].cells@);
    assert(p[0] == start.cells@);
    assert(p[p.len() - 1] == goal.cells@);
    assert(is_slide_path(p, start.size as int)) by {
        assert forall|i: int|
            0 <= i < p.len() - 1 implies is_slide(p[i], #[trigger] p[i + 1], start.size as int) by {
            let j = n - 2 - i;
            assert(is_slide(ms[j + 1].cells@, ms[j].cells@, start.size as int));
            assert(p[i] == ms[j + 1].cells@);
            assert(p[i + 1] == ms[j].cells@);
        }
    }
    assert(p.len() >= 1 && p[0] == start.cells@ && p[p.len() - 1] == goal.cells@ && is_slide_path(
        p,
        start.size as int,
    ));
}

/// When the extracted state carries the goal configuration, the
/// backtracking walk of the closed set is a sound move sequence.
proof fn lemma_goal_moves(closed: Seq<State>, current: State, start: State, goal: State)
    requires
        closed_ok(closed, start, closed.len() as int),
        state_ok(current, start),
        current.predecessor is Some ==> key_in(closed, current.predecessor->0@),
        current.cells@ == goal.cells@,
    ensures
        moves_ok(chain(closed, current), start, goal),
        closed.len() == 0 ==> chain(closed, current).len() == 1,
{
    lemma_chain_properties(closed, current, start, closed.len() as int);
    let m = chain(closed, current);
    if closed.len() == 0 {
        assert(current.predecessor is None) by {
            if current.predecessor is Some {
                let j = choose|j: int|
                    0 <= j < closed.len() && closed[j].cells@ == current.predecessor->0@;
            }
        }
        assert(m == seq![current]);
    }
}

/// Expand one state: file each generated neighbour into the frontier
/// unless its configuration is already closed or frontier-held at no worse
/// a cost, replacing a costlier frontier entry when one exists.
#[verifier::rlimit(100)]
fn expand_neighbors(
    frontier: &mut Vec<State>,
    closed: &Vec<State>,
    nbs: Vec<State>,
    current: &State,
    goal: &State,
    distance: Heuristic,
    score: SearchType,
    weight_scaled: u32,
    Ghost(start): Ghost<State>,
)
    requires
        start.wf(),
        goal.wf(),
        start.size == goal.size,
        current.wf(),
        current.size == start.size,
        0 <= current.cost < i32::MAX,
        current.cost <= closed@.len(),
        state_ok(*current, start),
        !key_in(closed@, current.cells@),
        nbs@.len() == neighbor_targets(current.cells@, current.size as int).len(),
        forall|k: int|
            0 <= k < nbs@.len() ==> (#[trigger] nbs@[k]).cells@ == swap_seq(
                current.cells@,
                blank_pos(current.cells@),
                neighbor_targets(current.cells@, current.size as int)[k],
            ),
        forall|k: int| 0 <= k < nbs@.len() ==> nb_ok(#[trigger] nbs@[k], *current),
        frontier_mid_ok(old(frontier)@, closed@, start, *current),
        closed_ok(closed@, start, closed@.len() as int),
        closure_mid_ok(closed@, old(frontier)@, current.cells@),
    ensures
        frontier_mid_ok(final(frontier)@, closed@, start, *current),
        closure_mid_ok(closed@, final(frontier)@, current.cells@),
        forall|k: int|
            0 <= k < nbs@.len() ==> key_in(closed@, (#[trigger] nbs@[k]).cells@) || key_in(
                final(frontier)@,
                nbs@[k].cells@,
            ),
        forall|key: Seq<u8>| #[trigger] key_in(old(frontier)@, key) ==> key_in(final(frontier)@, key),
{
    let ghost cur = *current;
    let ghost all = nbs@;
    let ghost finit = frontier@;
    let mut nbs = nbs;
    proof {
        assert(nbs@ =~= all.subrange(0, all.len() as int));
    }
    while nbs.len() > 0
        invariant
            start.wf(),
            goal.wf(),
            start.size == goal.size,
            *current == cur,
            cur.wf(),
            cur.size == start.size,
            0 <= cur.cost < i32::MAX,
            cur.cost <= closed@.len(),
            state_ok(cur, start),
            !key_in(closed@, cur.cells@),
            all.len() == neighbor_targets(cur.cells@, cur.size as int).len(),
            forall|k: int|
                0 <= k < all.len() ==> (#[trigger] all[k]).cells@ == swap_seq(
                    cur.cells@,
                    blank_pos(cur.cells@),
                    neighbor_targets(cur.cells@, cur.size as int)[k],
                ),
            nbs@.len() <= all.len(),
            nbs@ == all.subrange(all.len() - nbs@.len(), all.len() as int),
            forall|k: int| 0 <= k < all.len() ==> nb_ok(#[trigger] all[k], cur),
            forall|k: int|
                0 <= k < all.len() - nbs@.len() ==> key_in(closed@, (#[trigger] all[k]).cells@)
                    || key_in(frontier@, all[k].cells@),
            frontier_mid_ok(frontier@, closed@, start, cur),
            closed_ok(closed@, start, closed@.len() as int),
            closure_mid_ok(closed@, frontier@, cur.cells@),
            forall|key: Seq<u8>| #[trigger] key_in(finit, key) ==> key_in(frontier@, key),
        decreases nbs@.len(),
    {
        let ghost npre = nbs@;
        let ghost fbefore = frontier@;
        let ghost done = all.len() - npre.len();
        let mut nb = nbs.remove(0);
        proof {
            assert(npre[0] == all[done as int]);
            assert(nbs@ =~= all.subrange(all.len() - nbs@.len(), all.len() as int));
        }
        nb.cost = current.cost + 1;
        let h = evaluate(distance, &nb, goal);
        let nsc = compute_score(score, nb.cost, h, weight_scaled);
        nb.score = nsc;
        proof {
            lemma_slide_changes(cur.cells@, nb.cells@, cur.size as int);
        }
        let ghost nbg = nb;
        let in_closed = find_key(closed, &nb.cells);
        if in_closed.is_none() {
            proof {
                assert(mid_entry_ok(nbg, closed@, start, cur));
            }
            match find_key(frontier, &nb.cells) {
                Some(i) => {
                    if frontier[i].cost > nb.cost {
                        let ghost f0 = frontier@;
                        frontier.remove(i);
                        proof {
                            lemma_mid_remove(f0, frontier@, closed@, start, cur, i as int);
                        }
                        let ghost f1 = frontier@;
                        frontier.push(nb);
                        proof {
                            lemma_mid_push(f1, frontier@, closed@, start, cur, nbg);
                            lemma_closure_replace(
                                closed@,
                                f0,
                                frontier@,
                                cur.cells@,
                                i as int,
                                nbg,
                            );
                            assert forall|key: Seq<u8>|
                                #[trigger] key_in(fbefore, key) implies key_in(
                                frontier@,
                                key,
                            ) by {
                                if key == f0[i as int].cells@ {
                                    assert(key_in(frontier@, nbg.cells@));
                                }
                            }
                            assert(key_in(frontier@, nbg.cells@));
                        }
                    } else {
                        proof {
                            assert(key_in(frontier@, nbg.cells@));
                        }
                    }
                },
                None => {
                    let ghost f1 = frontier@;
                    frontier.push(nb);
                    proof {
                        lemma_mid_push(f1, frontier@, closed@, start, cur, nbg);
                        lemma_closure_push(closed@, f1, frontier@, cur.cells@, nbg);
                        assert(key_in(frontier@, nbg.cells@));
                    }
                },
            }
        } else {
            proof {
                assert(key_in(closed@, nbg.cells@));
            }
        }
        proof {
            assert(key_in(closed@, nbg.cells@) || key_in(frontier@, nbg.cells@));
            assert(forall|key: Seq<u8>| #[trigger] key_in(fbefore, key) ==> key_in(frontier@, key));
            assert forall|k: int|
                0 <= k < all.len() - nbs@.len() implies key_in(
                closed@,
                (#[trigger] all[k]).cells@,
            ) || key_in(frontier@, all[k].cells@) by {
                if k == done {
                    assert(all[k].cells@ == nbg.cells@);
                }
            }
        }
    }
}

/// Move a fully expanded state into the closed set and account for it: the
/// counters advance, and every search invariant is restored.
#[verifier::rlimit(100)]
fn file_expanded(
    frontier: &Vec<State>,
    closed: &mut Vec<State>,
    solution: &mut Solution,
    budget: &mut usize,
    current: State,
    Ghost(start): Ghost<State>,
    Ghost(goal): Ghost<State>,
    Ghost(all): Ghost<Seq<State>>,
)
    requires
        current.wf(),
        current.size == start.size,
        state_ok(current, start),
        current.predecessor is Some ==> key_in(old(closed)@, current.predecessor->0@),
        !key_in(old(closed)@, current.cells@),
        current.cells@ != goal.cells@,
        all.len() == neighbor_targets(current.cells@, current.size as int).len(),
        forall|k: int|
            0 <= k < all.len() ==> (#[trigger] all[k]).cells@ == swap_seq(
                current.cells@,
                blank_pos(current.cells@),
                neighbor_targets(current.cells@, current.size as int)[k],
            ),
        forall|k: int|
            0 <= k < all.len() ==> key_in(old(closed)@, (#[trigger] all[k]).cells@) || key_in(
                frontier@,
                all[k].cells@,
            ),
        frontier_mid_ok(frontier@, old(closed)@, start, current),
        closed_ok(old(closed)@, start, old(closed)@.len() as int),
        closure_mid_ok(old(closed)@, frontier@, current.cells@),
        key_in(old(closed)@, start.cells@) || key_in(frontier@, start.cells@) || start.cells@
            == current.cells@,
        !key_in(old(closed)@, goal.cells@),
        *old(budget) == usize::MAX - old(closed)@.len(),
        *old(budget) >= 1,
        old(solution).moves is None,
        old(solution).time_complexity == old(closed)@.len(),
        old(solution).size_complexity >= old(solution).time_complexity,
    ensures
        final(closed)@.len() == old(closed)@.len() + 1,
        frontier_ok(frontier@, final(closed)@, start),
        closed_ok(final(closed)@, start, final(closed)@.len() as int),
        sets_disjoint(frontier@, final(closed)@),
        closure_ok(final(closed)@, frontier@),
        key_in(final(closed)@, start.cells@) || key_in(frontier@, start.cells@),
        !key_in(final(closed)@, goal.cells@),
        *final(budget) == usize::MAX - final(closed)@.len(),
        *final(budget) < *old(budget),
        final(solution).moves is None,
        final(solution).time_complexity == final(closed)@.len(),
        final(solution).size_complexity >= final(solution).time_complexity,
{
    let already_closed = find_key(closed, &current.cells).is_some();
    if already_closed {
        // dedup keeps closed configurations out of the frontier, so a
        // re-expansion cannot occur
        proof {
            assert(false);
        }
        return ;
    }
    *budget = *budget - 1;
    let ghost cpre = closed@;
    let ghost cur = current;
    closed.push(current);
    proof {
        assert(closed@ == cpre.push(cur));
        lemma_cur_expanded(cur, all, cpre, closed@, frontier@);
        lemma_closed_after_push(frontier@, cpre, closed@, start, cur);
        lemma_keys_after_push(cpre, closed@, frontier@, cur, start, goal);
    }
    let occupancy = match closed.len().checked_add(frontier.len()) {
        Some(v) => v,
        None => usize::MAX,
    };
    solution.update_complexity(occupancy);
}

/// Everything the search loop maintains between iterations.
pub open spec fn engine_inv(
    frontier: Seq<State>,
    closed: Seq<State>,
    solution: Solution,
    budget: usize,
    start: State,
    goal: State,
    st0: State,
) -> bool {
    &&& start.wf()
    &&& goal.wf()
    &&& start.size == goal.size
    &&& start.predecessor is None
    &&& st0.cells@ == start.cells@
    &&& st0.size == start.size
    &&& st0.predecessor is None
    &&& st0.wf()
    &&& frontier_ok(frontier, closed, start)
    &&& closed_ok(closed, start, closed.len() as int)
    &&& sets_disjoint(frontier, closed)
    &&& closure_ok(closed, frontier)
    &&& (key_in(closed, start.cells@) || key_in(frontier, start.cells@))
    &&& !key_in(closed, goal.cells@)
    &&& budget == usize::MAX - closed.len()
    &&& solution.moves is None
    &&& solution.time_complexity == closed.len()
    &&& solution.size_complexity >= solution.time_complexity
    &&& (closed.len() == 0 ==> frontier == seq![st0])
    &&& (start.cells@ == goal.cells@ ==> closed.len() == 0)
}

/// What any solution handed out by the search satisfies.
pub open spec fn search_outcome_ok(sol: Solution, start: State, goal: State) -> bool {
    &&& (sol.moves matches Some(m) ==> moves_ok(m@, start, goal))
    &&& (sol.moves is Some ==> reachable(start.cells@, goal.cells@, start.size as int))
    &&& ((sol.moves is None && sol.time_complexity < i32::MAX as usize) ==> !reachable(
        start.cells@,
        goal.cells@,
        start.size as int,
    ))
    &&& (start.cells@ == goal.cells@ ==> (sol.moves is Some && sol.moves->0@.len() == 1
        && sol.time_complexity == 0))
    &&& ((sol.moves is Some && start.cells@ != goal.cells@) ==> sol.time_complexity >= 1)
    &&& (sol.size_complexity >= sol.time_complexity)
}

/// Hand the terminal state to the assembler: the closed set is consumed
/// and the walk back to the start becomes the move sequence.
#[verifier::rlimit(100)]
fn finish_goal(
    closed: &mut Vec<State>,
    solution: &Solution,
    current: State,
    Ghost(start): Ghost<State>,
    Ghost(goal): Ghost<State>,
) -> (sol: Solution)
    requires
        closed_ok(old(closed)@, start, old(closed)@.len() as int),
        state_ok(current, start),
        current.predecessor is Some ==> key_in(old(closed)@, current.predecessor->0@),
        current.cells@ == goal.cells@,
        solution.moves is None,
        solution.time_complexity == old(closed)@.len(),
        solution.size_complexity >= solution.time_complexity,
        start.cells@ == goal.cells@ ==> old(closed)@.len() == 0,
    ensures
        search_outcome_ok(sol, start, goal),
{
    proof {
        lemma_goal_moves(old(closed)@, current, start, goal);
        lemma_moves_reachable(chain(old(closed)@, current), start, goal);
    }
    let mut owned: Vec<State> = Vec::new();
    core::mem::swap(&mut owned, closed);
    let snap = Solution {
        time_complexity: solution.time_complexity,
        size_complexity: solution.size_complexity,
        moves: None,
    };
    snap.build_solution(owned, current)
}

/// A defensive stop: no moves, the counters as they stand.
fn stop_solution(solution: &Solution) -> (sol: Solution)
    ensures
        sol.moves is None,
        sol.time_complexity == solution.time_complexity,
        sol.size_complexity == solution.size_complexity,
{
    Solution {
        time_complexity: solution.time_complexity,
        size_complexity: solution.size_complexity,
        moves: None,
    }
}

/// Expand the extracted state and file it, restoring every invariant.
#[verifier::rlimit(100)]
fn expand_and_file(
    frontier: &mut Vec<State>,
    closed: &mut Vec<State>,
    solution: &mut Solution,
    budget: &mut usize,
    current: State,
    goal: &State,
    distance: Heuristic,
    score: SearchType,
    weight_scaled: u32,
    Ghost(start): Ghost<State>,
    Ghost(st0): Ghost<State>,
)
    requires
        start.wf(),
        goal.wf(),
        start.size == goal.size,
        start.predecessor is None,
        st0.cells@ == start.cells@,
        st0.size == start.size,
        st0.predecessor is None,
        st0.wf(),
        current.wf(),
        current.size == start.size,
        0 <= current.cost < i32::MAX,
        current.cost <= old(closed)@.len(),
        state_ok(current, start),
        current.predecessor is Some ==> key_in(old(closed)@, current.predecessor->0@),
        !key_in(old(closed)@, current.cells@),
        current.cells@ != goal.cells@,
        start.cells@ != goal.cells@,
        forall|i: int|
            0 <= i < old(frontier)@.len() ==> frontier_entry_ok(
                #[trigger] old(frontier)@[i],
                old(closed)@,
                start,
            ),
        forall|i: int, j: int|
            0 <= i < j < old(frontier)@.len() ==> old(frontier)@[i].cells@ != old(
                frontier,
            )@[j].cells@,
        sets_disjoint(old(frontier)@, old(closed)@),
        forall|i: int|
            0 <= i < old(frontier)@.len() ==> (#[trigger] old(frontier)@[i]).cells@
                != current.cells@,
        closure_mid_ok(old(closed)@, old(frontier)@, current.cells@),
        closed_ok(old(closed)@, start, old(closed)@.len() as int),
        !key_in(old(closed)@, goal.cells@),
        key_in(old(closed)@, start.cells@) || key_in(old(frontier)@, start.cells@)
            || start.cells@ == current.cells@,
        *old(budget) == usize::MAX - old(closed)@.len(),
        *old(budget) >= 1,
        old(solution).moves is None,
        old(solution).time_complexity == old(closed)@.len(),
        old(solution).size_complexity >= old(solution).time_complexity,
    ensures
        engine_inv(
            final(frontier)@,
            final(closed)@,
            *final(solution),
            *final(budget),
            start,
            *goal,
            st0,
        ),
        *final(budget) < *old(budget),
{
    let ghost cur = current;
    let nbs = current.neighbors();
    let ghost all = nbs@;
    proof {
        lemma_neighbors_facts(cur, all);
        lemma_enter_expansion(frontier@, closed@, start, cur);
    }
    let ghost fmid0 = frontier@;
    expand_neighbors(frontier, closed, nbs, &current, goal, distance, score, weight_scaled, Ghost(start));
    proof {
        assert(key_in(closed@, start.cells@) || key_in(frontier@, start.cells@) || start.cells@
            == cur.cells@) by {
            if key_in(fmid0, start.cells@) {
                assert(key_in(frontier@, start.cells@));
            }
        }
    }
    file_expanded(frontier, closed, solution, budget, current, Ghost(start), Ghost(*goal), Ghost(all));
}

/// One round of the search: extract the best-ranked state, hand a finished
/// solution back when it is the goal or a defensive stop applies, and
/// otherwise expand it and file it.
#[verifier::rlimit(100)]
fn search_step(
    frontier: &mut Vec<State>,
    closed: &mut Vec<State>,
    solution: &mut Solution,
    budget: &mut usize,
    goal: &State,
    distance: Heuristic,
    score: SearchType,
    weight_scaled: u32,
    Ghost(start): Ghost<State>,
    Ghost(st0): Ghost<State>,
) -> (r: Option<Solution>)
    requires
        engine_inv(
            old(frontier)@,
            old(closed)@,
            *old(solution),
            *old(budget),
            start,
            *goal,
            st0,
        ),
        old(frontier)@.len() > 0,
    ensures
        r is None ==> engine_inv(
            final(frontier)@,
            final(closed)@,
            *final(solution),
            *final(budget),
            start,
            *goal,
            st0,
        ) && *final(budget) < *old(budget),
        r matches Some(sol) ==> search_outcome_ok(sol, start, *goal),
{
    let ghost fpre = frontier@;
    let current = pop_min(frontier);
    proof {
        lemma_frontier_after_pop(fpre, frontier@, closed@, start, current);
    }
    if cells_equal(&current.cells, &goal.cells) {
        return Some(finish_goal(closed, solution, current, Ghost(start), Ghost(*goal)));
    }
    proof {
        if start.cells@ == goal.cells@ {
            assert(fpre == seq![st0]);
            assert(current == st0);
            assert(false);
        }
        assert(key_in(closed@, start.cells@) || key_in(frontier@, start.cells@) || start.cells@
            == current.cells@) by {
            if key_in(fpre, start.cells@) {
                let mi = min_score_index(fpre);
                lemma_min_score_index(fpre);
                let j = choose|j: int| 0 <= j < fpre.len() && fpre[j].cells@ == start.cells@;
                if j == mi {
                    assert(current.cells@ == start.cells@);
                } else if j < mi {
                    assert(frontier@[j] == fpre[j]);
                } else {
                    assert(frontier@[j - 1] == fpre[j]);
                }
            }
        }
    }
    if *budget == 0 {
        // only after as many expansions as `usize` can count; the counters
        // say so, and the loop stays provably finite
        proof {
            assert(solution.time_complexity == usize::MAX);
        }
        return Some(stop_solution(solution));
    }
    if current.cost == i32::MAX {
        // a path cost at the integer limit arises only after at least that
        // many expansions; the guard keeps the increment below it
        proof {
            assert(solution.time_complexity >= i32::MAX as usize);
        }
        return Some(stop_solution(solution));
    }
    expand_and_file(
        frontier,
        closed,
        solution,
        budget,
        current,
        goal,
        distance,
        score,
        weight_scaled,
        Ghost(start),
        Ghost(st0),
    );
    None
}

/// Weighted best-first search from `start` to `goal`.
///
/// The frontier is deliberately a plain vector rather than a heap or an
/// off-the-shelf priority queue: such a structure would key states by an
/// equality the verifier has not read and leave the order of equal ranking
/// keys to its internal layout, while the contracts here need reproducible
/// extraction (the first minimal score) and a verified membership-and-cost
/// lookup.  The linear scan is the documented cost of that choice.  A node
/// budget is inspected once per expansion; it is far beyond any reachable
/// state count and only keeps the loop provably finite.
#[verifier::rlimit(100)]
pub fn w_a_star(
    start: State,
    goal: State,
    distance: Heuristic,
    score: SearchType,
    weight_scaled: u32,
) -> (sol: Solution)
    requires
        start.wf(),
        goal.wf(),
        start.size == goal.size,
        start.predecessor is None,
        start.cost == 0,
    ensures
        sol.moves matches Some(m) ==> moves_ok(m@, start, goal),
        sol.moves is Some ==> reachable(start.cells@, goal.cells@, start.size as int),
        (sol.moves is None && sol.time_complexity < i32::MAX as usize) ==> !reachable(
            start.cells@,
            goal.cells@,
            start.size as int,
        ),
        start.cells@ == goal.cells@ ==> (sol.moves is Some && sol.moves->0@.len() == 1
            && sol.time_complexity == 0),
        (sol.moves is Some && start.cells@ != goal.cells@) ==> sol.time_complexity >= 1,
        sol.size_complexity >= sol.time_complexity,
{
    let mut solution = Solution::new();
    let mut frontier: Vec<State> = Vec::new();
    let mut closed: Vec<State> = Vec::new();
    let mut first = start;
    let h0 = evaluate(distance, &first, &goal);
    let sc0 = compute_score(score, 0, h0, weight_scaled);
    first.score = sc0;
    let ghost st0 = first;
    frontier.push(first);
    let mut budget: usize = usize::MAX;
    proof {
        reveal(closure_ok);
        assert(frontier@ == seq![st0]);
        assert(frontier@[0].cells@ == start.cells@);
        assert(closure_ok(closed@, frontier@));
        assert(frontier_entry_ok(st0, closed@, start));
        assert(engine_inv(frontier@, closed@, solution, budget, start, goal, st0));
    }
    while frontier.len() > 0
        invariant
            engine_inv(frontier@, closed@, solution, budget, start, goal, st0),
        decreases budget,
    {
        let step = search_step(
            &mut frontier,
            &mut closed,
            &mut solution,
            &mut budget,
            &goal,
            distance,
            score,
            weight_scaled,
            Ghost(start),
            Ghost(st0),
        );
        match step {
            Some(sol) => {
                return sol;
            },
            None => {
            },
        }
    }
    proof {
        assert(key_in(closed@, start.cells@)) by {
            if key_in(frontier@, start.cells@) {
                let j = choose|j: int| 0 <= j < frontier@.len() && frontier@[j].cells@ == start.cells@;
            }
        }
        lemma_exhausted_unreachable(closed@, frontier@, start, goal);
    }
    solution
}

/// Best-first search with the unit weight: plain A*.
pub fn a_star(start: State, goal: State, heuristic: Heuristic) -> (sol: Solution)
    requires
        start.wf(),
        goal.wf(),
        start.size == goal.size,
        start.predecessor is None,
        start.cost == 0,
    ensures
        sol.moves matches Some(m) ==> moves_ok(m@, start, goal),
        sol.moves is Some ==> reachable(start.cells@, goal.cells@, start.size as int),
        (sol.moves is None && sol.time_complexity < i32::MAX as usize) ==> !reachable(
            start.cells@,
            goal.cells@,
            start.size as int,
        ),
        start.cells@ == goal.cells@ ==> (sol.moves is Some && sol.moves->0@.len() == 1
            && sol.time_complexity == 0),
        (sol.moves is Some && start.cells@ != goal.cells@) ==> sol.time_complexity >= 1,
        sol.size_complexity >= sol.time_complexity,
{
    w_a_star(start, goal, heuristic, SearchType::BestFirst, 100)
}

} // verus!
