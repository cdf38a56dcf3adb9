//! Score policies: how accumulated cost and heuristic estimate combine into
//! the frontier's ranking key.

use vstd::prelude::*;

verus! {

#[derive(Clone, Copy, Debug, PartialEq, Eq, Structural)]
pub enum SearchType {
    UniformCost,
    Greedy,
    BestFirst,
}

/// The ranking key of a node, in hundredths so that a fractional weight on
/// the estimate needs no floating point: the cost keeps weight 1 (scaled to
/// 100) and the estimate is scaled by `weight_scaled` hundredths.  Only
/// best-first search uses the weight.
pub open spec fn score_value(st: SearchType, g: int, h: int, weight_scaled: int) -> int {
    match st {
        SearchType::UniformCost => 100 * g,
        SearchType::Greedy => 100 * h,
        SearchType::BestFirst => 100 * g + weight_scaled * h,
    }
}

/// The policy a configuration-time name selects, if any.
pub open spec fn policy_of_name(s: Seq<char>) -> Option<SearchType> {
    if s == "uniform_cost"@ {
        Some(SearchType::UniformCost)
    } else if s == "greedy"@ {
        Some(SearchType::Greedy)
    } else if s == "best_first"@ {
        Some(SearchType::BestFirst)
    } else {
        None
    }
}

/// Resolve a score-policy name once, at configuration time.
pub fn arg_to_method(arg: &str) -> (r: Option<SearchType>)
    ensures
        r == policy_of_name(arg@),
{
    let s = arg.to_owned();
    if s == "uniform_cost".to_owned() {
        Some(SearchType::UniformCost)
    } else if s == "greedy".to_owned() {
        Some(SearchType::Greedy)
    } else if s == "best_first".to_owned() {
        Some(SearchType::BestFirst)
    } else {
        None
    }
}

/// Unweighted best-first ranking: cost plus estimate.
pub fn best_first(g: i32, h: i32) -> (r: i32)
    requires
        i32::MIN <= g + h <= i32::MAX,
    ensures
        r == g + h,
{
    g + h
}

/// Uniform-cost ranking: the accumulated cost alone.
pub fn uniform_cost(g: i32, _h: i32) -> (r: i32)
    ensures
        r == g,
{
    g
}

/// Greedy ranking: the estimate alone.
pub fn greedy(_g: i32, h: i32) -> (r: i32)
    ensures
        r == h,
{
    h
}

/// The ranking key used by the engine, combining the selected policy with
/// the scaled weight.
pub fn compute_score(st: SearchType, g: i32, h: i32, weight_scaled: u32) -> (r: i64)
    requires
        0 <= g,
        0 <= h <= 100000,
    ensures
        r == score_value(st, g as int, h as int, weight_scaled as int),
        r >= 0,
{
    proof {
        assert(0 <= (weight_scaled as int) * (h as int) <= 0xffff_ffffint * 100000)
            by (nonlinear_arith)
            requires
                0 <= weight_scaled <= 0xffff_ffff,
                0 <= h <= 100000,
        ;
    }
    match st {
        SearchType::UniformCost => 100 * (uniform_cost(g, h) as i64),
        SearchType::Greedy => 100 * (greedy(g, h) as i64),
        SearchType::BestFirst => 100 * (g as i64) + (weight_scaled as i64) * (h as i64),
    }
}

} // verus!
