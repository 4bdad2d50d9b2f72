# Ternary Captain, verified

The captain/leadership pattern for fleet coordination, written in Verus with
every executable function proved against its contract.

- `src/ternary.rs`: ternary digits and agent statuses.
- `src/decision.rs`: the `DecisionEngine`: plurality decisions over ternary
  votes with a quorum, and the laws they obey (most votes, caution on ties,
  unanimity, independence of vote order).
- `src/registry.rs`: a keyed table (one value per identifier) whose model is a
  finite map, used by the delegator, the situation room and the fleet report.
- `src/situation.rs`: the `SituationRoom`, one ternary report per agent.
- `src/fleet.rs`: the `FleetReport`, one status per agent.
- `src/succession.rs`: the `SuccessionPlan`, a line of heirs without repeats.
- `src/delegation.rs`: `AgentInfo` and the `Delegator`, which gives a task to
  the fittest Ready specialist.
- `src/captain.rs`: the `Captain`, which ties the above together; an enlisted
  agent joins the line of succession at its place by fitness.
- `app/lib.rs`: what needs floating point: weighted decisions, consensus and
  health ratios, and agents whose fitness is a floating-point score.

An agent's fitness is held as an order key (`u64`): the agent with the larger
key is the fitter. `app/lib.rs` maps a floating-point score to such a key.
Ratios (consensus strength, fleet health) are handed out as pairs of counts.
