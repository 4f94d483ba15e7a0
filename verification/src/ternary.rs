//! The three states of an agent and their balanced-ternary digits.
use vstd::prelude::*;

verus! {

/// The three possible states of an agent.
///
/// Each state is a balanced ternary digit:
/// `Avoid` is -1, `Explore` is 0 and `Choose` is +1.
#[derive(Debug, Clone, Copy, PartialEq, Eq, Hash, Structural)]
pub enum TernaryState {
    Avoid,
    Explore,
    Choose,
}

/// The balanced-ternary digit of a state.
pub open spec fn trit_of(s: TernaryState) -> int {
    match s {
        TernaryState::Avoid => -1,
        TernaryState::Explore => 0,
        TernaryState::Choose => 1,
    }
}

/// The digits that name a state.
pub open spec fn is_trit(t: int) -> bool {
    -1 <= t <= 1
}

/// The state named by a balanced-ternary digit (meaningful for `is_trit(t)`).
pub open spec fn state_of_trit(t: int) -> TernaryState {
    if t < 0 {
        TernaryState::Avoid
    } else if t == 0 {
        TernaryState::Explore
    } else {
        TernaryState::Choose
    }
}

/// The cyclic successor: Avoid -> Explore -> Choose -> Avoid.
pub open spec fn successor(s: TernaryState) -> TernaryState {
    match s {
        TernaryState::Avoid => TernaryState::Explore,
        TernaryState::Explore => TernaryState::Choose,
        TernaryState::Choose => TernaryState::Avoid,
    }
}

impl TernaryState {
    /// Convert to the balanced ternary digit: -1, 0, or +1.
    pub fn to_trit(self) -> (t: i8)
        ensures
            t == trit_of(self),
    {
        match self {
            TernaryState::Avoid => -1,
            TernaryState::Explore => 0,
            TernaryState::Choose => 1,
        }
    }

    /// Convert from a balanced ternary digit.
    ///
    /// Only -1, 0 and +1 name a state; any other digit is refused by the
    /// precondition (and panics when reached from unverified code).
    pub fn from_trit(trit: i8) -> (s: Self)
        requires
            is_trit(trit as int),
        ensures
            s == state_of_trit(trit as int),
            trit_of(s) == trit,
    {
        match trit {
            -1 => TernaryState::Avoid,
            0 => TernaryState::Explore,
            1 => TernaryState::Choose,
            _ => vstd::pervasive::unreached(),
        }
    }

    /// Cycle to the next state: Avoid -> Explore -> Choose -> Avoid.
    pub fn next(self) -> (s: Self)
        ensures
            s == successor(self),
    {
        match self {
            TernaryState::Avoid => TernaryState::Explore,
            TernaryState::Explore => TernaryState::Choose,
            TernaryState::Choose => TernaryState::Avoid,
        }
    }
}

/// The state picked by a threshold rule from how a score compares with its
/// two thresholds: `Choose` when the score is at or above the upper
/// threshold (this wins when both comparisons hold), `Avoid` when it is at
/// or below the lower one, `Explore` otherwise.
pub open spec fn threshold_state(at_or_above_upper: bool, at_or_below_lower: bool) -> TernaryState {
    if at_or_above_upper {
        TernaryState::Choose
    } else if at_or_below_lower {
        TernaryState::Avoid
    } else {
        TernaryState::Explore
    }
}

/// Decide a state from the outcomes of the two threshold comparisons of a
/// threshold strategy (`score >= upper` and `score <= lower`).
pub fn decide_by_thresholds(at_or_above_upper: bool, at_or_below_lower: bool) -> (s: TernaryState)
    ensures
        s == threshold_state(at_or_above_upper, at_or_below_lower),
{
    if at_or_above_upper {
        TernaryState::Choose
    } else if at_or_below_lower {
        TernaryState::Avoid
    } else {
        TernaryState::Explore
    }
}

/// A threshold rule commits exactly when the upper threshold is reached,
/// retreats exactly when only the lower one is, and explores when neither is.
pub proof fn lemma_threshold_state(at_or_above_upper: bool, at_or_below_lower: bool)
    ensures
        (threshold_state(at_or_above_upper, at_or_below_lower) == TernaryState::Choose)
            <==> at_or_above_upper,
        (threshold_state(at_or_above_upper, at_or_below_lower) == TernaryState::Avoid) <==> (
        !at_or_above_upper && at_or_below_lower),
        (threshold_state(at_or_above_upper, at_or_below_lower) == TernaryState::Explore) <==> (
        !at_or_above_upper && !at_or_below_lower),
{
}

/// Every state has a digit, and converting that digit back gives the state.
pub proof fn lemma_trit_round_trip(s: TernaryState)
    ensures
        is_trit(trit_of(s)),
        state_of_trit(trit_of(s)) == s,
{
}

/// Every valid digit names a state whose digit is that same digit.
pub proof fn lemma_state_round_trip(t: int)
    requires
        is_trit(t),
    ensures
        trit_of(state_of_trit(t)) == t,
{
}

/// Distinct states have distinct digits.
pub proof fn lemma_trit_injective(a: TernaryState, b: TernaryState)
    requires
        trit_of(a) == trit_of(b),
    ensures
        a == b,
{
}

/// Cycling three times returns to the starting state, and no fewer steps do.
pub proof fn lemma_next_has_period_three(s: TernaryState)
    ensures
        successor(successor(successor(s))) == s,
        successor(s) != s,
        successor(successor(s)) != s,
{
}

/// Cycling adds one to the digit, wrapping from +1 back to -1.
pub proof fn lemma_next_increments_trit(s: TernaryState)
    ensures
        trit_of(successor(s)) == (if trit_of(s) == 1 { -1 } else { trit_of(s) + 1 }),
{
}

/// Every state is the successor of exactly one state: its predecessor in the
/// cycle, reached by cycling twice.
pub proof fn lemma_next_is_bijective(a: TernaryState, b: TernaryState)
    ensures
        successor(a) == successor(b) ==> a == b,
        successor(successor(successor(b))) == b,
{
}

} // verus!
