use lib::{AgentInfo, AgentStatus, Captain, DecisionEngine, Delegator, FleetReport, SituationRoom,
    SuccessionPlan, Ternary};

/// The order key of a fitness score: larger scores give larger keys.
fn fitness_key(f: f64) -> u64 {
    let f = if f == 0.0 { 0.0 } else { f };
    let bits = f.to_bits();
    if bits >> 63 == 1 {
        !bits
    } else {
        bits | (1u64 << 63)
    }
}

fn agent(id: &str, status: AgentStatus, specialization: &str, fitness: f64) -> AgentInfo {
    AgentInfo {
        id: id.into(),
        status,
        specialization: specialization.into(),
        fitness: fitness_key(fitness),
    }
}

#[test]
fn test_ternary_values() {
    assert_eq!(Ternary::Negative.to_i8(), -1);
    assert_eq!(Ternary::Zero.to_i8(), 0);
    assert_eq!(Ternary::Positive.to_i8(), 1);
}

#[test]
fn test_agent_status_available() {
    assert!(AgentStatus::Ready.available());
    assert!(!AgentStatus::Busy.available());
    assert!(!AgentStatus::Offline.available());
}

#[test]
fn test_decision_engine_basic() {
    let engine = DecisionEngine::new(1);
    let votes = vec![Ternary::Positive, Ternary::Positive, Ternary::Negative];
    assert_eq!(engine.decide(&votes), Some(Ternary::Positive));
}

#[test]
fn test_decision_engine_quorum_not_met() {
    let engine = DecisionEngine::new(5);
    let votes = vec![Ternary::Positive, Ternary::Negative];
    assert_eq!(engine.decide(&votes), None);
}

#[test]
fn test_delegator_assign() {
    let mut delegator = Delegator::new();
    let agents = vec![
        agent("a1", AgentStatus::Ready, "scout", 0.8),
        agent("a2", AgentStatus::Ready, "scout", 0.9),
    ];
    let result = delegator.assign("task1", "scout", &agents);
    assert_eq!(result, Some("a2".to_string())); // higher fitness
}

#[test]
fn test_delegator_no_match() {
    let mut delegator = Delegator::new();
    let agents = vec![agent("a1", AgentStatus::Ready, "medic", 0.9)];
    assert_eq!(delegator.assign("task1", "scout", &agents), None);
}

#[test]
fn test_delegator_complete() {
    let mut delegator = Delegator::new();
    let agents = vec![agent("a1", AgentStatus::Ready, "scout", 0.5)];
    delegator.assign("task1", "scout", &agents);
    assert!(delegator.complete("task1"));
    assert_eq!(delegator.active_count(), 0);
}

#[test]
fn test_situation_room_aggregate() {
    let mut room = SituationRoom::new();
    room.report("a1", Ternary::Positive);
    room.report("a2", Ternary::Positive);
    room.report("a3", Ternary::Negative);
    assert_eq!(room.aggregate(), Ternary::Positive);
}

#[test]
fn test_situation_room_distribution() {
    let mut room = SituationRoom::new();
    room.report("a1", Ternary::Negative);
    room.report("a2", Ternary::Zero);
    room.report("a3", Ternary::Positive);
    assert_eq!(room.distribution(), (1, 1, 1));
}

#[test]
fn test_situation_room_clear() {
    let mut room = SituationRoom::new();
    room.report("a1", Ternary::Positive);
    room.clear();
    assert_eq!(room.report_count(), 0);
}

#[test]
fn test_fleet_report_operational() {
    let mut report = FleetReport::new();
    report.add("a1", AgentStatus::Ready);
    assert!(report.operational());
}

#[test]
fn test_fleet_report_compromised() {
    let mut report = FleetReport::new();
    report.add("a1", AgentStatus::Ready);
    report.add("a2", AgentStatus::Compromised);
    assert!(!report.operational());
}

#[test]
fn test_fleet_report_offline() {
    let mut report = FleetReport::new();
    report.add("a1", AgentStatus::Offline);
    report.add("a2", AgentStatus::Ready);
    assert_eq!(report.offline_agents(), vec!["a1"]);
}

#[test]
fn test_succession_plan() {
    let mut plan = SuccessionPlan::new();
    plan.add_successor("a1");
    plan.add_successor("a2");
    assert_eq!(plan.heir(), Some("a1"));
    assert_eq!(plan.depth(), 2);
}

#[test]
fn test_succession_promote() {
    let mut plan = SuccessionPlan::new();
    plan.add_successor("a1");
    plan.add_successor("a2");
    let promoted = plan.promote_next();
    assert_eq!(promoted, Some("a1".to_string()));
    assert_eq!(plan.heir(), Some("a2"));
}

#[test]
fn test_captain_enlist_and_discharge() {
    let mut captain = Captain::new("cap1", 1);
    captain.enlist(agent("a1", AgentStatus::Ready, "scout", 0.9));
    assert_eq!(captain.roster.len(), 1);
    assert!(captain.discharge("a1"));
    assert_eq!(captain.roster.len(), 0);
}

#[test]
fn test_captain_delegate() {
    let mut captain = Captain::new("cap1", 1);
    captain.enlist(agent("a1", AgentStatus::Ready, "scout", 0.9));
    let assigned = captain.delegate("task1", "scout");
    assert_eq!(assigned, Some("a1".to_string()));
}
