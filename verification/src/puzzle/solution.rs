//! The outcome of a search: an optional move sequence in goal-to-start order
//! plus two monotone complexity counters.

use vstd::prelude::*;

verus! {

use crate::puzzle::state::{
    State,
    find_key,
    first_key_index,
    is_slide,
    key_in,
    lemma_first_key_index,
};

/// The move sequence the backtracking walk yields: the terminal state, then
/// the closed-set entry its predecessor key names, and so on until a state
/// with no predecessor (the start) or a key the closed set does not hold.
/// Every visited entry is removed, so the walk always ends.
pub open spec fn chain(closed: Seq<State>, last: State) -> Seq<State>
    decreases closed.len(),
{
    match last.predecessor {
        Option::None => seq![last],
        Option::Some(p) => {
            if key_in(closed, p@) && 0 <= first_key_index(closed, p@) < closed.len() {
                let j = first_key_index(closed, p@);
                seq![last] + chain(closed.remove(j), closed[j])
            } else {
                seq![last]
            }
        },
    }
}

/// What the search loop guarantees of every state it files: well formed, of
/// the searched size, and either the start itself or one slide away from
/// the configuration its predecessor key records.
pub open spec fn state_ok(s: State, start: State) -> bool {
    &&& s.wf()
    &&& s.size == start.size
    &&& (s.predecessor is None ==> s.cells@ == start.cells@)
    &&& (s.predecessor is Some ==> is_slide(s.predecessor->0@, s.cells@, s.size as int))
}

/// What the search loop guarantees of the closed set: every entry is a
/// `state_ok` state, configurations never repeat, and each of the first
/// `bound` entries names a predecessor filed strictly earlier.
pub open spec fn closed_ok(closed: Seq<State>, start: State, bound: int) -> bool {
    &&& forall|i: int| 0 <= i < closed.len() ==> state_ok(#[trigger] closed[i], start)
    &&& forall|i: int, j: int|
        0 <= i < j < closed.len() ==> closed[i].cells@ != closed[j].cells@
    &&& forall|i: int|
        0 <= i < bound ==> ((#[trigger] closed[i]).predecessor is Some ==> exists|j: int|
            0 <= j < i && closed[j].cells@ == closed[i].predecessor->0@)
}

/// The backtracking walk of a well-kept closed set starts at the terminal
/// state, steps one slide at a time along recorded predecessor keys, and
/// ends at the start configuration.
pub proof fn lemma_chain_properties(closed: Seq<State>, last: State, start: State, bound: int)
    requires
        0 <= bound <= closed.len(),
        closed_ok(closed, start, bound),
        state_ok(last, start),
        last.predecessor is Some ==> exists|j: int|
            0 <= j < bound && closed[j].cells@ == last.predecessor->0@,
    ensures
        ({
            let m = chain(closed, last);
            &&& m.len() >= 1
            &&& m[0] == last
            &&& m[m.len() - 1].cells@ == start.cells@
            &&& m[m.len() - 1].predecessor is None
            &&& forall|i: int|
                0 <= i < m.len() ==> (#[trigger] m[i]).wf() && m[i].size == start.size
            &&& forall|i: int|
                0 <= i < m.len() - 1 ==> ((#[trigger] m[i]).predecessor is Some
                    && m[i].predecessor->0@ == m[i + 1].cells@ && is_slide(
                    m[i + 1].cells@,
                    m[i].cells@,
                    start.size as int,
                ))
        }),
    decreases bound,
{
    let m = chain(closed, last);
    match last.predecessor {
        Option::None => {
            assert(m == seq![last]);
        },
        Option::Some(p) => {
            let jw = choose|j: int| 0 <= j < bound && closed[j].cells@ == p@;
            assert(key_in(closed, p@));
            lemma_first_key_index(closed, p@);
            let j = first_key_index(closed, p@);
            assert(j == jw);
            let rest = closed.remove(j);
            let next = closed[j];
            assert(rest.len() == closed.len() - 1);
            assert(forall|i: int| 0 <= i < j ==> rest[i] == closed[i]);
            assert(forall|i: int| j <= i < rest.len() ==> rest[i] == closed[i + 1]);
            assert(closed_ok(rest, start, j)) by {
                assert forall|i: int| 0 <= i < rest.len() implies state_ok(
                    #[trigger] rest[i],
                    start,
                ) by {
                    if i < j {
                        assert(rest[i] == closed[i]);
                    } else {
                        assert(rest[i] == closed[i + 1]);
                    }
                }
                assert forall|i: int, k: int|
                    0 <= i < k < rest.len() implies rest[i].cells@ != rest[k].cells@ by {
                    let oi = if i < j {
                        i
                    } else {
                        i + 1
                    };
                    let ok = if k < j {
                        k
                    } else {
                        k + 1
                    };
                    assert(rest[i] == closed[oi]);
                    assert(rest[k] == closed[ok]);
                }
                assert forall|i: int|
                    0 <= i < j implies ((#[trigger] rest[i]).predecessor is Some
                    ==> exists|j2: int|
                    0 <= j2 < i && rest[j2].cells@ == rest[i].predecessor->0@) by {
                    assert(rest[i] == closed[i]);
                    if rest[i].predecessor is Some {
                        let j2 = choose|j2: int|
                            0 <= j2 < i && closed[j2].cells@ == closed[i].predecessor->0@;
                        assert(rest[j2] == closed[j2]);
                    }
                }
            }
            if next.predecessor is Some {
                let j2 = choose|j2: int|
                    0 <= j2 < j && closed[j2].cells@ == closed[j].predecessor->0@;
                assert(rest[j2] == closed[j2]);
            }
            lemma_chain_properties(rest, next, start, j);
            let m2 = chain(rest, next);
            assert(m == seq![last] + m2);
            assert(m[0] == last);
            assert(m.len() == 1 + m2.len());
            assert(forall|i: int| 0 <= i < m2.len() ==> m[i + 1] == m2[i]);
            assert(m[m.len() - 1] == m2[m2.len() - 1]);
            assert(m[1] == m2[0] && m2[0] == next);
            assert(last.predecessor->0@ == next.cells@);
            assert forall|i: int|
                0 <= i < m.len() - 1 implies ((#[trigger] m[i]).predecessor is Some
                && m[i].predecessor->0@ == m[i + 1].cells@ && is_slide(
                m[i + 1].cells@,
                m[i].cells@,
                start.size as int,
            )) by {
                if i == 0 {
                    assert(m[0] == last);
                    assert(m[1] == next);
                } else {
                    assert(m[i] == m2[i - 1]);
                    assert(m[i + 1] == m2[i]);
                }
            }
        },
    }
}

/// Index in the closed set of the entry a state's predecessor key names.
fn pred_index(closed: &Vec<State>, s: &State) -> (r: Option<usize>)
    ensures
        r matches Some(i) ==> (s.predecessor is Some && key_in(closed@, s.predecessor->0@) && (
        i as int) == first_key_index(closed@, s.predecessor->0@) && i < closed@.len()
            && closed@[i as int].cells@ == s.predecessor->0@),
        r is None ==> (s.predecessor is None || !key_in(closed@, s.predecessor->0@)),
{
    match &s.predecessor {
        Some(p) => find_key(closed, p),
        None => None,
    }
}

pub struct Solution {
    pub time_complexity: usize,
    pub size_complexity: usize,
    pub moves: Option<Vec<State>>,
}

impl Solution {
    pub fn new() -> (s: Solution)
        ensures
            s.time_complexity == 0,
            s.size_complexity == 0,
            s.moves is None,
    {
        Solution { time_complexity: 0, size_complexity: 0, moves: None }
    }

    /// Count one more expanded state and keep the high-water mark of the
    /// combined frontier and closed-set size.
    pub fn update_complexity(&mut self, current_size: usize)
        requires
            old(self).time_complexity < usize::MAX,
        ensures
            final(self).time_complexity == old(self).time_complexity + 1,
            final(self).size_complexity == if old(self).size_complexity < current_size {
                current_size
            } else {
                old(self).size_complexity
            },
            final(self).moves == old(self).moves,
    {
        self.time_complexity = self.time_complexity + 1;
        if self.size_complexity < current_size {
            self.size_complexity = current_size;
        }
    }

    /// Walk the predecessor chain backward from the terminal state, taking
    /// each named entry out of the closed set, and return the visited
    /// states in goal-to-start order together with the counters.
    pub fn build_solution(self, closed_set: Vec<State>, last_state: State) -> (sol: Solution)
        ensures
            sol.time_complexity == self.time_complexity,
            sol.size_complexity == self.size_complexity,
            sol.moves matches Some(m) && m@ == chain(closed_set@, last_state),
    {
        let time_complexity = self.time_complexity;
        let size_complexity = self.size_complexity;
        let ghost closed0 = closed_set@;
        let ghost last0 = last_state;
        let mut closed = closed_set;
        let mut moves: Vec<State> = Vec::new();
        let mut current = last_state;
        loop
            invariant
                chain(closed0, last0) == moves@ + chain(closed@, current),
            ensures
                chain(closed0, last0) == moves@ + seq![current],
            decreases closed@.len(),
        {
            match pred_index(&closed, &current) {
                Some(idx) => {
                    proof {
                        let p = current.predecessor->0;
                        lemma_first_key_index(closed@, p@);
                        assert(chain(closed@, current) == seq![current] + chain(
                            closed@.remove(idx as int),
                            closed@[idx as int],
                        ));
                    }
                    let ghost old_closed = closed@;
                    let ghost old_moves = moves@;
                    let ghost old_current = current;
                    let next = closed.remove(idx);
                    moves.push(current);
                    current = next;
                    proof {
                        assert(old_moves + (seq![old_current] + chain(closed@, current))
                            =~= moves@ + chain(closed@, current));
                    }
                },
                None => {
                    proof {
                        assert(chain(closed@, current) == seq![current]);
                    }
                    break ;
                },
            }
        }
        moves.push(current);
        proof {
            assert(chain(closed0, last0) =~= moves@);
        }
        Solution { time_complexity, size_complexity, moves: Some(moves) }
    }

    pub fn moves(&self) -> (r: &Option<Vec<State>>)
        ensures
            *r == self.moves,
    {
        &self.moves
    }

    pub fn time_complexity(&self) -> (r: usize)
        ensures
            r == self.time_complexity,
    {
        self.time_complexity
    }

    pub fn size_complexity(&self) -> (r: usize)
        ensures
            r == self.size_complexity,
    {
        self.size_complexity
    }
}

} // verus!
