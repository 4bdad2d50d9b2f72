use lib::{AgentInfo, AgentStatus, Captain, DecisionEngine, Delegator, FleetReport, SituationRoom,
    SuccessionPlan, Ternary};

fn agent(id: &str, status: AgentStatus, specialization: &str, fitness: u64) -> AgentInfo {
    AgentInfo { id: id.into(), status, specialization: specialization.into(), fitness }
}

#[test]
fn decide_ties_go_to_negative_then_zero() {
    let engine = DecisionEngine::new(0);
    assert_eq!(engine.decide(&[Ternary::Positive, Ternary::Negative]), Some(Ternary::Negative));
    assert_eq!(engine.decide(&[Ternary::Positive, Ternary::Zero]), Some(Ternary::Zero));
    assert_eq!(
        engine.decide(&[Ternary::Negative, Ternary::Zero, Ternary::Positive]),
        Some(Ternary::Negative)
    );
}

#[test]
fn decide_on_no_votes_with_zero_quorum_is_negative() {
    let engine = DecisionEngine::new(0);
    assert_eq!(engine.decide(&[]), Some(Ternary::Negative));
}

#[test]
fn decide_exactly_at_quorum() {
    let engine = DecisionEngine::new(2);
    assert_eq!(engine.decide(&[Ternary::Zero]), None);
    assert_eq!(engine.decide(&[Ternary::Zero, Ternary::Positive]), Some(Ternary::Zero));
}

#[test]
fn decide_unanimous() {
    let engine = DecisionEngine::new(3);
    let votes = vec![Ternary::Positive; 4];
    assert_eq!(engine.decide(&votes), Some(Ternary::Positive));
}

#[test]
fn decide_ignores_vote_order() {
    let engine = DecisionEngine::new(1);
    let a = [Ternary::Zero, Ternary::Positive, Ternary::Zero, Ternary::Negative];
    let b = [Ternary::Negative, Ternary::Zero, Ternary::Zero, Ternary::Positive];
    assert_eq!(engine.decide(&a), engine.decide(&b));
    assert_eq!(engine.decide(&a), Some(Ternary::Zero));
}

#[test]
fn consensus_fraction_values() {
    let engine = DecisionEngine::new(1);
    assert_eq!(engine.consensus_fraction(&[Ternary::Positive; 3]), (3, 3));
    assert_eq!(
        engine.consensus_fraction(&[Ternary::Positive, Ternary::Negative, Ternary::Zero]),
        (1, 3)
    );
    assert_eq!(engine.consensus_fraction(&[]), (0, 0));
    let strict = DecisionEngine::new(5);
    assert_eq!(strict.consensus_fraction(&[Ternary::Positive, Ternary::Positive]), (0, 2));
}

#[test]
fn delegator_picks_last_of_equally_fit() {
    let mut delegator = Delegator::new();
    let agents = vec![
        agent("a1", AgentStatus::Ready, "scout", 7),
        agent("a2", AgentStatus::Ready, "scout", 7),
        agent("a3", AgentStatus::Ready, "scout", 3),
    ];
    assert_eq!(delegator.assign("t", "scout", &agents), Some("a2".to_string()));
}

#[test]
fn delegator_skips_unavailable_and_other_specialists() {
    let mut delegator = Delegator::new();
    let agents = vec![
        agent("busy", AgentStatus::Busy, "scout", 100),
        agent("medic", AgentStatus::Ready, "medic", 90),
        agent("offline", AgentStatus::Offline, "scout", 80),
        agent("scout", AgentStatus::Ready, "scout", 1),
    ];
    assert_eq!(delegator.assign("t", "scout", &agents), Some("scout".to_string()));
    assert_eq!(delegator.get_assignment("t"), Some("scout"));
}

#[test]
fn delegator_failed_assign_records_nothing() {
    let mut delegator = Delegator::new();
    let agents = vec![agent("a1", AgentStatus::Compromised, "scout", 5)];
    assert_eq!(delegator.assign("t", "scout", &agents), None);
    assert_eq!(delegator.get_assignment("t"), None);
    assert_eq!(delegator.active_count(), 0);
}

#[test]
fn delegator_reassign_replaces_and_complete_removes() {
    let mut delegator = Delegator::new();
    let first = vec![agent("a1", AgentStatus::Ready, "scout", 5)];
    let second = vec![agent("a2", AgentStatus::Ready, "scout", 5)];
    delegator.assign("t", "scout", &first);
    delegator.assign("u", "scout", &first);
    delegator.assign("t", "scout", &second);
    assert_eq!(delegator.active_count(), 2);
    assert_eq!(delegator.get_assignment("t"), Some("a2"));
    assert_eq!(delegator.get_assignment("u"), Some("a1"));
    assert!(delegator.complete("t"));
    assert!(!delegator.complete("t"));
    assert_eq!(delegator.get_assignment("t"), None);
    assert_eq!(delegator.active_count(), 1);
}

#[test]
fn situation_room_empty_aggregates_to_zero() {
    let room = SituationRoom::new();
    assert_eq!(room.aggregate(), Ternary::Zero);
    assert_eq!(room.distribution(), (0, 0, 0));
}

#[test]
fn situation_room_latest_report_wins() {
    let mut room = SituationRoom::new();
    room.report("a1", Ternary::Negative);
    room.report("a2", Ternary::Positive);
    room.report("a1", Ternary::Positive);
    assert_eq!(room.report_count(), 2);
    assert_eq!(room.distribution(), (0, 0, 2));
    assert_eq!(room.aggregate(), Ternary::Positive);
}

#[test]
fn situation_room_agrees_with_decision_engine() {
    let mut room = SituationRoom::new();
    let reports = [Ternary::Zero, Ternary::Positive, Ternary::Zero, Ternary::Positive];
    let ids = ["a", "b", "c", "d"];
    for (id, value) in ids.iter().zip(reports.iter()) {
        room.report(id, *value);
    }
    let engine = DecisionEngine::new(4);
    assert_eq!(engine.decide(&reports), Some(room.aggregate()));
    assert_eq!(room.aggregate(), Ternary::Zero);
}

#[test]
fn fleet_report_counts_and_health() {
    let mut report = FleetReport::new();
    report.add("a1", AgentStatus::Ready);
    report.add("a2", AgentStatus::Ready);
    report.add("a3", AgentStatus::Offline);
    assert_eq!(report.health_fraction(), (2, 3));
    assert_eq!(report.agent_count(), 3);
    let counts = report.status_counts();
    assert_eq!(counts.len(), 2);
    assert!(counts.contains(&(AgentStatus::Ready, 2)));
    assert!(counts.contains(&(AgentStatus::Offline, 1)));
    let total: usize = counts.iter().map(|c| c.1).sum();
    assert_eq!(total, report.agent_count());
}

#[test]
fn fleet_report_status_update_replaces() {
    let mut report = FleetReport::new();
    report.add("a1", AgentStatus::Offline);
    report.add("a1", AgentStatus::Ready);
    assert_eq!(report.agent_count(), 1);
    assert!(report.offline_agents().is_empty());
    assert!(report.operational());
}

#[test]
fn fleet_report_empty_is_not_operational() {
    let report = FleetReport::new();
    assert!(!report.operational());
    assert_eq!(report.health_fraction(), (0, 0));
    assert!(report.status_counts().is_empty());
}

#[test]
fn fleet_report_offline_lists_each_once() {
    let mut report = FleetReport::new();
    report.add("a1", AgentStatus::Offline);
    report.add("a2", AgentStatus::Busy);
    report.add("a3", AgentStatus::Offline);
    report.add("a1", AgentStatus::Offline);
    let mut offline = report.offline_agents();
    offline.sort();
    assert_eq!(offline, vec!["a1", "a3"]);
}

#[test]
fn succession_add_is_idempotent_and_remove_keeps_order() {
    let mut plan = SuccessionPlan::new();
    plan.add_successor("a1");
    plan.add_successor("a2");
    plan.add_successor("a1");
    plan.add_successor("a3");
    assert_eq!(plan.depth(), 3);
    assert!(plan.remove("a2"));
    assert!(!plan.remove("a2"));
    let line: Vec<&str> = plan.line().iter().map(|s| s.as_str()).collect();
    assert_eq!(line, vec!["a1", "a3"]);
}

#[test]
fn succession_empty_plan() {
    let mut plan = SuccessionPlan::new();
    assert_eq!(plan.heir(), None);
    assert_eq!(plan.promote_next(), None);
    assert_eq!(plan.depth(), 0);
}

#[test]
fn succession_remove_undoes_add() {
    let mut plan = SuccessionPlan::new();
    plan.add_successor("a1");
    plan.add_successor("a2");
    plan.add_successor("new");
    assert!(plan.remove("new"));
    let line: Vec<&str> = plan.line().iter().map(|s| s.as_str()).collect();
    assert_eq!(line, vec!["a1", "a2"]);
}

#[test]
fn captain_command_outcomes() {
    let empty = Captain::new("cap", 0);
    assert_eq!(empty.command(), Some(Ternary::Negative));
    let mut captain = Captain::new("cap", 1);
    assert_eq!(captain.command(), None);
    captain.enlist(agent("a1", AgentStatus::Busy, "scout", 1));
    assert_eq!(captain.command(), None);
    captain.enlist(agent("a2", AgentStatus::Ready, "scout", 1));
    assert_eq!(captain.command(), Some(Ternary::Zero));
}

#[test]
fn captain_discharge_unknown_and_health_fraction() {
    let mut captain = Captain::new("cap1", 1);
    captain.enlist(agent("a1", AgentStatus::Ready, "scout", 9));
    captain.enlist(agent("a2", AgentStatus::Busy, "medic", 7));
    assert_eq!(captain.fleet_health_fraction(), (1, 2));
    assert!(!captain.discharge("zz"));
    assert_eq!(captain.roster.len(), 2);
    assert_eq!(captain.succession.depth(), 2);
    assert!(captain.discharge("a1"));
    assert_eq!(captain.succession.heir(), Some("a2"));
}

#[test]
fn captain_discharge_undoes_enlist() {
    let mut captain = Captain::new("cap1", 1);
    captain.enlist(agent("a1", AgentStatus::Ready, "scout", 9));
    captain.enlist(agent("new", AgentStatus::Ready, "medic", 2));
    assert!(captain.discharge("new"));
    assert_eq!(captain.roster.len(), 1);
    assert_eq!(captain.roster[0].id, "a1");
    let line: Vec<&str> = captain.succession.line().iter().map(|s| s.as_str()).collect();
    assert_eq!(line, vec!["a1"]);
}

#[test]
fn captain_reports_and_votes() {
    let mut captain = Captain::new("cap1", 2);
    captain.receive_report("a1", Ternary::Positive);
    captain.receive_report("a2", Ternary::Negative);
    captain.receive_report("a3", Ternary::Negative);
    assert_eq!(captain.situation_room.aggregate(), Ternary::Negative);
    assert_eq!(captain.decide_from_votes(&[Ternary::Positive]), None);
    assert_eq!(
        captain.decide_from_votes(&[Ternary::Positive, Ternary::Positive]),
        Some(Ternary::Positive)
    );
}

#[test]
fn captain_delegate_records_assignment() {
    let mut captain = Captain::new("cap1", 1);
    captain.enlist(agent("a1", AgentStatus::Ready, "scout", 3));
    captain.enlist(agent("a2", AgentStatus::Ready, "scout", 8));
    assert_eq!(captain.delegate("task1", "medic"), None);
    assert_eq!(captain.delegate("task1", "scout"), Some("a2".to_string()));
    assert_eq!(captain.delegator.get_assignment("task1"), Some("a2"));
}

#[test]
fn clones_keep_their_contents() {
    let mut captain = Captain::new("cap1", 1);
    captain.enlist(agent("a1", AgentStatus::Ready, "scout", 4));
    captain.enlist(agent("a2", AgentStatus::Offline, "medic", 6));
    captain.receive_report("a1", Ternary::Zero);
    captain.delegate("t", "scout");
    let copy = captain.clone();
    let line: Vec<&str> = copy.succession.line().iter().map(|s| s.as_str()).collect();
    assert_eq!(line, vec!["a2", "a1"]);
    assert_eq!(copy.roster.len(), 2);
    assert_eq!(copy.situation_room.distribution(), (0, 1, 0));
    assert_eq!(copy.delegator.get_assignment("t"), Some("a1"));
    assert_eq!(copy.decision_engine.quorum, 1);
}

#[test]
fn captain_enlist_ranks_line_by_fitness() {
    let mut captain = Captain::new("cap1", 1);
    captain.enlist(agent("a1", AgentStatus::Ready, "scout", 1));
    captain.enlist(agent("a2", AgentStatus::Ready, "scout", 9));
    captain.enlist(agent("a3", AgentStatus::Busy, "medic", 5));
    captain.enlist(agent("a4", AgentStatus::Ready, "medic", 5));
    captain.enlist(agent("a5", AgentStatus::Ready, "medic", 0));
    let line: Vec<&str> = captain.succession.line().iter().map(|s| s.as_str()).collect();
    assert_eq!(line, vec!["a2", "a3", "a4", "a1", "a5"]);
    assert_eq!(captain.succession.heir(), Some("a2"));
    assert_eq!(captain.roster.len(), 5);
}

#[test]
fn captain_enlist_same_id_keeps_place() {
    let mut captain = Captain::new("cap1", 1);
    captain.enlist(agent("a1", AgentStatus::Ready, "scout", 1));
    captain.enlist(agent("a2", AgentStatus::Ready, "scout", 2));
    captain.enlist(agent("a1", AgentStatus::Ready, "scout", 50));
    let line: Vec<&str> = captain.succession.line().iter().map(|s| s.as_str()).collect();
    assert_eq!(line, vec!["a2", "a1"]);
    assert_eq!(captain.roster.len(), 3);
}

#[test]
fn succession_add_successor_at_place() {
    let mut plan = SuccessionPlan::new();
    plan.add_successor("a1");
    plan.add_successor("a3");
    plan.add_successor_at("a2", 1);
    plan.add_successor_at("a1", 0);
    let line: Vec<&str> = plan.line().iter().map(|s| s.as_str()).collect();
    assert_eq!(line, vec!["a1", "a2", "a3"]);
}

#[test]
fn fleet_report_status_of() {
    let mut report = FleetReport::new();
    report.add("a1", AgentStatus::Busy);
    report.add("a1", AgentStatus::Compromised);
    assert_eq!(report.status_of("a1"), Some(AgentStatus::Compromised));
    assert_eq!(report.status_of("a2"), None);
}

#[test]
fn fleet_report_agent_statuses() {
    let mut report = FleetReport::new();
    report.add("a1", AgentStatus::Busy);
    report.add("a2", AgentStatus::Ready);
    report.add("a1", AgentStatus::Offline);
    let mut all = report.agent_statuses();
    all.sort_by(|x, y| x.0.cmp(y.0));
    assert_eq!(all, vec![("a1", AgentStatus::Offline), ("a2", AgentStatus::Ready)]);
}

#[test]
fn captain_discharge_keeps_line_ranked() {
    let mut captain = Captain::new("cap1", 1);
    captain.enlist(agent("a1", AgentStatus::Ready, "scout", 3));
    captain.enlist(agent("a2", AgentStatus::Ready, "scout", 8));
    captain.enlist(agent("a3", AgentStatus::Ready, "scout", 5));
    assert!(captain.discharge("a3"));
    captain.enlist(agent("a4", AgentStatus::Ready, "scout", 4));
    let line: Vec<&str> = captain.succession.line().iter().map(|s| s.as_str()).collect();
    assert_eq!(line, vec!["a2", "a4", "a1"]);
}
