use ternary_agent::ternary::{decide_by_thresholds, TernaryState};

#[test]
fn ternary_state_trit_roundtrip() {
    assert_eq!(TernaryState::Avoid.to_trit(), -1);
    assert_eq!(TernaryState::Explore.to_trit(), 0);
    assert_eq!(TernaryState::Choose.to_trit(), 1);
    assert_eq!(TernaryState::from_trit(-1), TernaryState::Avoid);
    assert_eq!(TernaryState::from_trit(0), TernaryState::Explore);
    assert_eq!(TernaryState::from_trit(1), TernaryState::Choose);
}

#[test]
#[should_panic]
fn ternary_state_invalid_trit() {
    TernaryState::from_trit(2);
}

#[test]
fn ternary_state_cycle() {
    let mut s = TernaryState::Avoid;
    s = s.next();
    assert_eq!(s, TernaryState::Explore);
    s = s.next();
    assert_eq!(s, TernaryState::Choose);
    s = s.next();
    assert_eq!(s, TernaryState::Avoid);
}

#[test]
fn ternary_state_three_steps_return_home() {
    for s in [TernaryState::Avoid, TernaryState::Explore, TernaryState::Choose] {
        assert_eq!(s.next().next().next(), s);
        assert_ne!(s.next(), s);
        assert_eq!(TernaryState::from_trit(s.to_trit()), s);
    }
}

#[test]
fn ternary_state_next_increments_trit() {
    assert_eq!(TernaryState::Avoid.next().to_trit(), 0);
    assert_eq!(TernaryState::Explore.next().to_trit(), 1);
    assert_eq!(TernaryState::Choose.next().to_trit(), -1);
}

#[test]
fn threshold_decisions() {
    // score 0.8 with thresholds (-0.5, 0.5): reaches the upper one only
    assert_eq!(decide_by_thresholds(0.8 >= 0.5, 0.8 <= -0.5), TernaryState::Choose);
    // score -0.7: reaches the lower one only
    assert_eq!(decide_by_thresholds(-0.7 >= 0.5, -0.7 <= -0.5), TernaryState::Avoid);
    // score 0.0: in between
    assert_eq!(decide_by_thresholds(0.0 >= 0.5, 0.0 <= -0.5), TernaryState::Explore);
    // both reached (lower above upper): upper wins
    assert_eq!(decide_by_thresholds(true, true), TernaryState::Choose);
}
