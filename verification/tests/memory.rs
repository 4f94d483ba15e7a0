use ternary_agent::memory::AgentMemory;

/// The strength a fresh observation or commit is given.
const FULL: f64 = 1.0;

/// One decay step as the agent memory performs it: scale every long-term
/// strength by `factor` and keep the entries still at or above `min`.
fn decay(mem: &mut AgentMemory<f64>, clear_short_term: bool, factor: f64, min: f64) {
    let strengths: Vec<f64> = mem.long_term.iter().map(|e| e.strength * factor).collect();
    let keep: Vec<bool> = strengths.iter().map(|s| *s >= min).collect();
    mem.apply_decay(clear_short_term, strengths, keep);
}

#[test]
fn memory_decay_prunes_weak() {
    let mut mem = AgentMemory::new();
    mem.observe("temp", "data", FULL);
    mem.commit("temp", FULL);
    // long-term strength is now 1.0; decay to 0.05
    decay(&mut mem, false, 0.05, 0.1);
    assert!(mem.long_term.is_empty()); // pruned below 0.1
}

#[test]
fn memory_decay_clears_short_term() {
    let mut mem = AgentMemory::new();
    mem.observe("x", "y", FULL);
    decay(&mut mem, true, 0.9, 0.0);
    assert!(mem.short_term.is_empty());
    assert!(mem.long_term.is_empty());
}

#[test]
fn recall_missing_key() {
    let mem: AgentMemory<f64> = AgentMemory::new();
    assert!(mem.recall("nope").is_none());
}

#[test]
fn memory_len_counts_both() {
    let mut mem = AgentMemory::new();
    mem.observe("a", "1", FULL);
    mem.observe("b", "2", FULL);
    mem.commit("a", FULL);
    assert_eq!(mem.len(), 2); // 1 short + 1 long
}

#[test]
fn memory_observe_and_recall() {
    let mut mem = AgentMemory::new();
    mem.observe("food", "left", FULL);
    let (val, strength) = mem.recall("food").unwrap();
    assert_eq!(val, "left");
    assert_eq!(strength, 1.0);
}

#[test]
fn memory_commit_moves_entry() {
    let mut mem = AgentMemory::new();
    mem.observe("food", "left", FULL);
    assert!(mem.commit("food", FULL));
    assert!(mem.short_term.is_empty());
    assert_eq!(mem.long_term.len(), 1);
    assert_eq!(mem.long_term[0].key, "food");
    assert_eq!(mem.recall("food"), Some(("left", 1.0))); // now in long-term
    assert!(!mem.commit("nonexistent", FULL));
    assert_eq!(mem.len(), 1);
}

#[test]
fn memory_commit_takes_oldest_entry() {
    let mut mem = AgentMemory::new();
    mem.observe("k", "old", 0.3);
    mem.observe("other", "o", 0.5);
    mem.observe("k", "new", 0.7);
    assert!(mem.commit("k", FULL));
    assert_eq!(mem.short_term.len(), 2);
    assert_eq!(mem.short_term[0].key, "other");
    assert_eq!(mem.short_term[1].value, "new");
    assert_eq!(mem.long_term[0].value, "old");
    assert_eq!(mem.long_term[0].strength, 1.0);
}

#[test]
fn memory_recall_prefers_short_term() {
    let mut mem = AgentMemory::new();
    mem.observe("k", "first", 0.5);
    mem.commit("k", FULL);
    mem.observe("k", "second", 0.25);
    assert_eq!(mem.recall("k"), Some(("second", 0.25)));
    mem.observe("k", "third", 0.75);
    assert_eq!(mem.recall("k"), Some(("second", 0.25)));
}

#[test]
fn memory_decay_scales_and_keeps_order() {
    let mut mem = AgentMemory::new();
    mem.observe("a", "1", FULL);
    mem.observe("b", "2", FULL);
    mem.observe("c", "3", FULL);
    mem.commit("a", FULL);
    mem.commit("b", 0.1);
    mem.commit("c", FULL);
    mem.observe("d", "4", FULL);
    decay(&mut mem, false, 0.5, 0.25);
    assert_eq!(mem.short_term.len(), 1);
    assert_eq!(mem.long_term.len(), 2);
    assert_eq!(mem.long_term[0].key, "a");
    assert_eq!(mem.long_term[0].strength, 0.5);
    assert_eq!(mem.long_term[1].key, "c");
    assert_eq!(mem.recall("b"), None);
}

#[test]
fn memory_new_and_default_are_empty() {
    let mem: AgentMemory<f64> = AgentMemory::new();
    assert!(mem.is_empty());
    assert_eq!(mem.len(), 0);
    let mem2: AgentMemory<f64> = AgentMemory::default();
    assert!(mem2.is_empty());
    let mut mem3 = AgentMemory::new();
    mem3.observe("x", "y", FULL);
    assert!(!mem3.is_empty());
}
