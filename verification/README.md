# ternary_agent

Core agent types for a ternary ecosystem, verified with Verus.

- `src/ternary.rs`: the agent states Avoid / Explore / Choose, their
  balanced-ternary digits (-1, 0, +1), the state cycle and the threshold rule.
- `src/comm.rs`: the message bus (send, receive, pending, broadcast).
- `src/memory.rs`: agent memory with short-term and long-term stores, generic
  over the type of an entry's strength.
- `src/ranking.rs`: ranking agents by an integer score, best first.
- `app/lib.rs`: the types that carry `f64` values (fitness, strengths,
  threshold strategies, agents and the agent pool), built on the library.
