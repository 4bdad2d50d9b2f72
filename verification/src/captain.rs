//! The captain: leads a roster of agents with ternary decision making.

use vstd::prelude::*;
use crate::ternary::{Ternary, AgentStatus};
use crate::decision::{DecisionEngine, decision, lemma_count_unanimous, lemma_decision_unanimous};
use crate::delegation::{AgentInfo, Delegator, has_candidate, is_best_fit};
use crate::situation::SituationRoom;
use crate::succession::{SuccessionPlan, names_view, removed_from_line, lemma_remove_undoes_insert};

verus! {

/// Number of agents in `roster` that are Ready.
pub open spec fn ready_count(roster: Seq<AgentInfo>) -> nat
    decreases roster.len(),
{
    if roster.len() == 0 {
        0
    } else {
        ready_count(roster.drop_last()) + if roster.last().status == AgentStatus::Ready {
            1nat
        } else {
            0nat
        }
    }
}

/// The votes that the roster casts on a command: a Zero from each Ready agent.
pub open spec fn command_votes(roster: Seq<AgentInfo>) -> Seq<Ternary> {
    Seq::new(ready_count(roster), |_i: int| Ternary::Zero)
}

/// `roster[i]` is the first agent of the roster with identifier `agent_id`.
pub open spec fn first_with_id(roster: Seq<AgentInfo>, agent_id: Seq<char>, i: int) -> bool {
    &&& 0 <= i < roster.len()
    &&& roster[i].id@ == agent_id
    &&& forall|j: int| 0 <= j < i ==> (#[trigger] roster[j]).id@ != agent_id
}

/// The fitness of the first agent of `roster` with identifier `agent_id`, if
/// the roster holds one.
pub open spec fn fitness_of(roster: Seq<AgentInfo>, agent_id: Seq<char>) -> Option<u64>
    decreases roster.len(),
{
    if roster.len() == 0 {
        None
    } else if roster[0].id@ == agent_id {
        Some(roster[0].fitness)
    } else {
        fitness_of(roster.drop_first(), agent_id)
    }
}

/// The roster gives `agent_id` a fitness of at least `fitness`.
pub open spec fn ranks_at_least(roster: Seq<AgentInfo>, agent_id: Seq<char>, fitness: u64) -> bool {
    fitness_of(roster, agent_id) matches Some(g) && g >= fitness
}

/// `k` is the place in `line` for an agent of fitness `fitness`: behind every
/// agent in front of it that is at least as fit, ahead of the first that is
/// not.
pub open spec fn is_rank_place(line: Seq<Seq<char>>, roster: Seq<AgentInfo>, fitness: u64, k: int) -> bool {
    &&& 0 <= k <= line.len()
    &&& forall|i: int| 0 <= i < k ==> ranks_at_least(roster, #[trigger] line[i], fitness)
    &&& k < line.len() ==> !ranks_at_least(roster, line[k], fitness)
}

/// The line of succession is ranked by fitness: every agent in line is on the
/// roster, and no agent stands behind a less fit one.
pub open spec fn ranked_by_fitness(line: Seq<Seq<char>>, roster: Seq<AgentInfo>) -> bool {
    &&& forall|i: int| 0 <= i < line.len() ==> (#[trigger] fitness_of(roster, line[i])) is Some
    &&& forall|i: int, j: int|
        0 <= i < j < line.len() ==> fitness_of(roster, #[trigger] line[i])->0 >= fitness_of(
            roster,
            #[trigger] line[j],
        )->0
}

/// Enlisting an agent does not change the fitness of those already enlisted;
/// a new identifier gets the new agent's fitness.
pub proof fn lemma_fitness_of_push(roster: Seq<AgentInfo>, a: AgentInfo, agent_id: Seq<char>)
    ensures
        fitness_of(roster.push(a), agent_id) == match fitness_of(roster, agent_id) {
            Some(g) => Some(g),
            None => if a.id@ == agent_id {
                Some(a.fitness)
            } else {
                None
            },
        },
    decreases roster.len(),
{
    assert(roster.push(a)[0] == if roster.len() > 0 { roster[0] } else { a });
    if roster.len() > 0 {
        assert(roster.push(a).drop_first() =~= roster.drop_first().push(a));
        lemma_fitness_of_push(roster.drop_first(), a, agent_id);
    } else {
        assert(roster.push(a).drop_first() =~= Seq::<AgentInfo>::empty());
        assert(fitness_of(Seq::<AgentInfo>::empty(), agent_id) is None);
        assert(fitness_of(roster, agent_id) is None);
    }
}

/// A roster without `agent_id` gives it no fitness.
pub proof fn lemma_fitness_of_absent(roster: Seq<AgentInfo>, agent_id: Seq<char>)
    requires
        forall|j: int| 0 <= j < roster.len() ==> (#[trigger] roster[j]).id@ != agent_id,
    ensures
        fitness_of(roster, agent_id) is None,
    decreases roster.len(),
{
    if roster.len() > 0 {
        assert(roster[0].id@ != agent_id);
        assert forall|j: int| 0 <= j < roster.drop_first().len() implies (
        #[trigger] roster.drop_first()[j]).id@ != agent_id by {
            assert(roster.drop_first()[j] == roster[j + 1]);
        }
        lemma_fitness_of_absent(roster.drop_first(), agent_id);
    }
}

/// Taking an agent out of the roster does not change the fitness of any other
/// identifier.
pub proof fn lemma_fitness_of_remove(roster: Seq<AgentInfo>, i: int, agent_id: Seq<char>)
    requires
        0 <= i < roster.len(),
        roster[i].id@ != agent_id,
    ensures
        fitness_of(roster.remove(i), agent_id) == fitness_of(roster, agent_id),
    decreases i,
{
    if i == 0 {
        assert(roster.remove(0) =~= roster.drop_first());
    } else {
        let rest = roster.drop_first();
        assert(roster.remove(i)[0] == roster[0]);
        assert(roster.remove(i).drop_first() =~= rest.remove(i - 1));
        assert(rest[i - 1] == roster[i]);
        lemma_fitness_of_remove(rest, i - 1, agent_id);
    }
}

/// Looks up the fitness of the first agent with identifier `agent_id`.
fn find_fitness(roster: &Vec<AgentInfo>, agent_id: &String) -> (r: Option<u64>)
    ensures
        r == fitness_of(roster@, agent_id@),
{
    let n = roster.len();
    let mut i: usize = 0;
    assert(roster@.skip(0) =~= roster@);
    while i < n
        invariant
            n == roster@.len(),
            i <= n,
            fitness_of(roster@, agent_id@) == fitness_of(roster@.skip(i as int), agent_id@),
        decreases n - i,
    {
        let ghost rest = roster@.skip(i as int);
        assert(rest[0] == roster@[i as int]);
        if roster[i].id == *agent_id {
            return Some(roster[i].fitness);
        }
        assert(rest.drop_first() =~= roster@.skip(i + 1));
        i = i + 1;
    }
    assert(roster@.skip(n as int).len() == 0);
    None
}

proof fn lemma_ready_count_push(roster: Seq<AgentInfo>, a: AgentInfo)
    ensures
        ready_count(roster.push(a)) == ready_count(roster) + if a.status == AgentStatus::Ready {
            1nat
        } else {
            0nat
        },
{
    assert(roster.push(a).drop_last() =~= roster);
}

/// Fleet health is a fraction of at most one: no more agents are Ready than
/// the roster holds.
pub proof fn lemma_ready_count_bounded(roster: Seq<AgentInfo>)
    ensures
        ready_count(roster) <= roster.len(),
    decreases roster.len(),
{
    if roster.len() > 0 {
        lemma_ready_count_bounded(roster.drop_last());
    }
}

/// Leads a group of agents with ternary decision making.
///
/// The captain maintains a roster, makes decisions, delegates tasks, and
/// maintains a succession plan.
#[derive(Debug, Clone)]
pub struct Captain {
    pub id: String,
    pub roster: Vec<AgentInfo>,
    pub decision_engine: DecisionEngine,
    pub delegator: Delegator,
    pub situation_room: SituationRoom,
    pub succession: SuccessionPlan,
}

impl Captain {
    pub fn new(id: &str, quorum: usize) -> (r: Self)
        ensures
            r.id@ == id@,
            r.roster@ == Seq::<AgentInfo>::empty(),
            r.decision_engine.quorum == quorum,
            r.delegator@ == Map::<Seq<char>, Seq<char>>::empty(),
            r.situation_room@ == Map::<Seq<char>, Ternary>::empty(),
            r.succession@ == Seq::<Seq<char>>::empty(),
    {
        Self {
            id: id.to_owned(),
            roster: Vec::new(),
            decision_engine: DecisionEngine::new(quorum),
            delegator: Delegator::new(),
            situation_room: SituationRoom::new(),
            succession: SuccessionPlan::new(),
        }
    }

    /// Add an agent to the roster. Unless it stands there already, it joins the
    /// line of succession at its place by fitness: behind the agents in front
    /// that the roster ranks at least as fit, ahead of the first that it does not.
    pub fn enlist(&mut self, agent: AgentInfo)
        ensures
            final(self).roster@ == old(self).roster@.push(agent),
            old(self).succession@.contains(agent.id@) ==> final(self).succession@ == old(self).succession@,
            !old(self).succession@.contains(agent.id@) ==> exists|k: int|
                is_rank_place(old(self).succession@, old(self).roster@, agent.fitness, k)
                    && final(self).succession@ == old(self).succession@.insert(k, agent.id@),
            final(self).id == old(self).id,
            final(self).decision_engine == old(self).decision_engine,
            final(self).delegator == old(self).delegator,
            final(self).situation_room == old(self).situation_room,
    {
        let line = self.succession.line();
        let n = line.len();
        let mut k: usize = 0;
        while k < n
            invariant_except_break
                forall|i: int| 0 <= i < k ==> ranks_at_least(self.roster@, #[trigger] self.succession@[i], agent.fitness),
            invariant
                n == self.succession@.len(),
                names_view(line@) == self.succession@,
                k <= n,
            ensures
                is_rank_place(self.succession@, self.roster@, agent.fitness, k as int),
            decreases n - k,
        {
            assert(names_view(line@)[k as int] == line@[k as int]@);
            let reaches = match find_fitness(&self.roster, &line[k]) {
                Some(g) => g >= agent.fitness,
                None => false,
            };
            if !reaches {
                break;
            }
            k = k + 1;
        }
        self.succession.add_successor_at(agent.id.as_str(), k);
        self.roster.push(agent);
    }

    /// Remove an agent from the roster (its first entry) and from the line of
    /// succession; tells whether the roster held it.
    pub fn discharge(&mut self, agent_id: &str) -> (r: bool)
        ensures
            r == exists|i: int| 0 <= i < old(self).roster@.len() && (#[trigger] old(self).roster@[i]).id@ == agent_id@,
            r ==> exists|i: int|
                first_with_id(old(self).roster@, agent_id@, i) && final(self).roster@ == old(self).roster@.remove(i),
            r ==> removed_from_line(old(self).succession@, final(self).succession@, agent_id@),
            !r ==> final(self).roster@ == old(self).roster@ && final(self).succession@ == old(self).succession@,
            final(self).id == old(self).id,
            final(self).decision_engine == old(self).decision_engine,
            final(self).delegator == old(self).delegator,
            final(self).situation_room == old(self).situation_room,
    {
        let k = agent_id.to_owned();
        let n = self.roster.len();
        let mut idx: Option<usize> = None;
        for i in 0..n
            invariant_except_break
                idx is None,
                forall|j: int| 0 <= j < i ==> (#[trigger] self.roster@[j]).id@ != agent_id@,
            invariant
                n == self.roster@.len(),
                k@ == agent_id@,
                self.roster@ == old(self).roster@,
            ensures
                match idx {
                    Some(i) => first_with_id(self.roster@, agent_id@, i as int),
                    None => forall|j: int| 0 <= j < n ==> (#[trigger] self.roster@[j]).id@ != agent_id@,
                },
        {
            if self.roster[i].id == k {
                idx = Some(i);
                break;
            }
        }
        match idx {
            Some(i) => {
                self.roster.remove(i);
                self.succession.remove(agent_id);
                true
            },
            None => false,
        }
    }

    /// Collect votes from all available agents and make a decision.
    pub fn command(&self) -> (r: Option<Ternary>)
        ensures
            r == decision(self.decision_engine.quorum as nat, command_votes(self.roster@)),
    {
        let mut votes: Vec<Ternary> = Vec::new();
        let n = self.roster.len();
        for i in 0..n
            invariant
                n == self.roster@.len(),
                votes@ == command_votes(self.roster@.take(i as int)),
        {
            proof {
                let prefix = self.roster@.take(i as int);
                assert(self.roster@.take(i + 1) =~= prefix.push(self.roster@[i as int]));
                lemma_ready_count_push(prefix, self.roster@[i as int]);
            }
            if self.roster[i].status.available() {
                votes.push(Ternary::Zero);
            }
            proof {
                assert(votes@ =~= command_votes(self.roster@.take(i + 1)));
            }
        }
        proof {
            assert(self.roster@.take(n as int) =~= self.roster@);
        }
        self.decision_engine.decide(votes.as_slice())
    }

    /// Make a decision from explicit votes.
    pub fn decide_from_votes(&self, votes: &[Ternary]) -> (r: Option<Ternary>)
        ensures
            r == decision(self.decision_engine.quorum as nat, votes@),
    {
        self.decision_engine.decide(votes)
    }

    /// Delegate a task to the best-fit agent of the roster.
    pub fn delegate(&mut self, task_id: &str, task_type: &str) -> (r: Option<String>)
        ensures
            r is None <==> !has_candidate(old(self).roster@, task_type@),
            match r {
                Some(id) => final(self).delegator@ == old(self).delegator@.insert(task_id@, id@)
                    && exists|i: int| is_best_fit(old(self).roster@, task_type@, i) && #[trigger] old(self).roster@[i].id@ == id@,
                None => final(self).delegator@ == old(self).delegator@,
            },
            r is None <==> forall|j: int|
                0 <= j < old(self).roster@.len() ==> !((#[trigger] old(self).roster@[j]).status
                    == AgentStatus::Ready && old(self).roster@[j].specialization@ == task_type@),
            r matches Some(id) ==> exists|i: int|
                0 <= i < old(self).roster@.len() && (#[trigger] old(self).roster@[i]).id@ == id@
                    && old(self).roster@[i].status == AgentStatus::Ready
                    && old(self).roster@[i].specialization@ == task_type@ && forall|j: int|
                    0 <= j < old(self).roster@.len() && (#[trigger] old(self).roster@[j]).status
                        == AgentStatus::Ready && old(self).roster@[j].specialization@ == task_type@
                        ==> old(self).roster@[j].fitness <= old(self).roster@[i].fitness,
            final(self).id == old(self).id,
            final(self).roster == old(self).roster,
            final(self).decision_engine == old(self).decision_engine,
            final(self).situation_room == old(self).situation_room,
            final(self).succession == old(self).succession,
    {
        self.delegator.assign(task_id, task_type, self.roster.as_slice())
    }

    /// Update the situation room with a report.
    pub fn receive_report(&mut self, agent_id: &str, value: Ternary)
        ensures
            final(self).situation_room@ == old(self).situation_room@.insert(agent_id@, value),
            final(self).id == old(self).id,
            final(self).roster == old(self).roster,
            final(self).decision_engine == old(self).decision_engine,
            final(self).delegator == old(self).delegator,
            final(self).succession == old(self).succession,
    {
        self.situation_room.report(agent_id, value);
    }

    /// Fleet health of the roster as a fraction: (Ready agents, all agents).
    pub fn fleet_health_fraction(&self) -> (r: (usize, usize))
        ensures
            r.0 == ready_count(self.roster@),
            r.1 == self.roster@.len(),
    {
        let mut ready: usize = 0;
        let n = self.roster.len();
        for i in 0..n
            invariant
                n == self.roster@.len(),
                ready == ready_count(self.roster@.take(i as int)),
        {
            proof {
                let prefix = self.roster@.take(i as int);
                assert(self.roster@.take(i + 1) =~= prefix.push(self.roster@[i as int]));
                lemma_ready_count_push(prefix, self.roster@[i as int]);
                lemma_ready_count_bounded(prefix);
            }
            if self.roster[i].status.available() {
                ready = ready + 1;
            }
        }
        proof {
            assert(self.roster@.take(n as int) =~= self.roster@);
        }
        (ready, n)
    }
}

/// A command never comes out Positive: the roster's Ready agents all vote
/// Zero, so a command that meets its quorum is Zero, or Negative when no agent
/// is Ready (and the quorum is zero).
pub proof fn lemma_command_outcome(quorum: nat, roster: Seq<AgentInfo>)
    ensures
        decision(quorum, command_votes(roster)) != Some(Ternary::Positive),
        ready_count(roster) < quorum ==> decision(quorum, command_votes(roster)) is None,
        quorum <= ready_count(roster) && ready_count(roster) > 0 ==> decision(quorum, command_votes(roster))
            == Some(Ternary::Zero),
        quorum == 0 && ready_count(roster) == 0 ==> decision(quorum, command_votes(roster)) == Some(
            Ternary::Negative,
        ),
{
    let votes = command_votes(roster);
    assert forall|i: int| 0 <= i < votes.len() implies votes[i] == Ternary::Zero by {}
    lemma_count_unanimous(votes, Ternary::Zero, Ternary::Negative);
    lemma_count_unanimous(votes, Ternary::Zero, Ternary::Zero);
    lemma_count_unanimous(votes, Ternary::Zero, Ternary::Positive);
    if quorum <= ready_count(roster) && ready_count(roster) > 0 {
        lemma_decision_unanimous(quorum, votes, Ternary::Zero);
    }
}

/// Discharging an agent that was just enlisted, and that neither the roster
/// nor the line of succession held before, restores both.
pub proof fn lemma_discharge_undoes_enlist(
    before: &Captain,
    enlisted: &Captain,
    discharged: &Captain,
    agent: AgentInfo,
)
    requires
        forall|j: int| 0 <= j < before.roster@.len() ==> (#[trigger] before.roster@[j]).id@ != agent.id@,
        !before.succession@.contains(agent.id@),
        enlisted.roster@ == before.roster@.push(agent),
        exists|k: int|
            is_rank_place(before.succession@, before.roster@, agent.fitness, k)
                && enlisted.succession@ == before.succession@.insert(k, agent.id@),
        exists|i: int|
            first_with_id(enlisted.roster@, agent.id@, i) && discharged.roster@ == enlisted.roster@.remove(i),
        removed_from_line(enlisted.succession@, discharged.succession@, agent.id@),
    ensures
        discharged.roster@ == before.roster@,
        discharged.succession@ == before.succession@,
{
    let i = choose|i: int|
        first_with_id(enlisted.roster@, agent.id@, i) && discharged.roster@ == enlisted.roster@.remove(i);
    if i < before.roster@.len() {
        assert(enlisted.roster@[i] == before.roster@[i]);
    }
    assert(enlisted.roster@.remove(i) =~= before.roster@);
    let k = choose|k: int|
        is_rank_place(before.succession@, before.roster@, agent.fitness, k)
            && enlisted.succession@ == before.succession@.insert(k, agent.id@);
    lemma_remove_undoes_insert(before.succession@, k, discharged.succession@, agent.id@);
}

/// Enlisting a new agent keeps the line of succession ranked by fitness: an
/// agent that neither the roster nor the line held goes to its place by
/// fitness, and no agent then stands behind a less fit one.
pub proof fn lemma_enlist_keeps_line_ranked(
    line: Seq<Seq<char>>,
    roster: Seq<AgentInfo>,
    agent: AgentInfo,
    k: int,
)
    requires
        ranked_by_fitness(line, roster),
        !line.contains(agent.id@),
        forall|j: int| 0 <= j < roster.len() ==> (#[trigger] roster[j]).id@ != agent.id@,
        is_rank_place(line, roster, agent.fitness, k),
    ensures
        ranked_by_fitness(line.insert(k, agent.id@), roster.push(agent)),
{
    let id = agent.id@;
    let f = agent.fitness;
    let new_line = line.insert(k, id);
    let new_roster = roster.push(agent);
    lemma_fitness_of_absent(roster, id);
    lemma_fitness_of_push(roster, agent, id);
    assert forall|x: int| 0 <= x < line.len() implies fitness_of(new_roster, line[x]) == fitness_of(
        roster,
        line[x],
    ) && fitness_of(roster, #[trigger] line[x]) is Some by {
        lemma_fitness_of_push(roster, agent, line[x]);
    }
    assert forall|x: int| k <= x < line.len() implies fitness_of(roster, #[trigger] line[x])->0 < f by {
        assert(fitness_of(roster, line[k]) is Some);
        if x > k {
            assert(fitness_of(roster, line[k])->0 >= fitness_of(roster, line[x])->0);
        }
    }
    assert forall|x: int| 0 <= x < k implies fitness_of(roster, #[trigger] line[x])->0 >= f by {
        assert(ranks_at_least(roster, line[x], f));
    }
    assert forall|i: int| 0 <= i < new_line.len() implies (#[trigger] fitness_of(
        new_roster,
        new_line[i],
    )) is Some by {
        if i < k {
            assert(new_line[i] == line[i]);
        } else if i > k {
            assert(new_line[i] == line[i - 1]);
        }
    }
    assert forall|i: int, j: int| 0 <= i < j < new_line.len() implies fitness_of(
        new_roster,
        #[trigger] new_line[i],
    )->0 >= fitness_of(new_roster, #[trigger] new_line[j])->0 by {
        if i < k {
            assert(new_line[i] == line[i]);
        } else if i > k {
            assert(new_line[i] == line[i - 1]);
        }
        if j < k {
            assert(new_line[j] == line[j]);
        } else if j > k {
            assert(new_line[j] == line[j - 1]);
        }
        if i != k && j != k {
            let a = if i < k { i } else { i - 1 };
            let b = if j < k { j } else { j - 1 };
            assert(fitness_of(roster, line[a])->0 >= fitness_of(roster, line[b])->0);
        }
    }
}

/// Discharging an agent keeps the line of succession ranked by fitness: the
/// others keep their fitness and their order.
pub proof fn lemma_discharge_keeps_line_ranked(before: &Captain, after: &Captain, agent_id: Seq<char>)
    requires
        ranked_by_fitness(before.succession@, before.roster@),
        before.succession@.no_duplicates(),
        (exists|i: int|
            first_with_id(before.roster@, agent_id, i) && after.roster@ == before.roster@.remove(i)
                && removed_from_line(before.succession@, after.succession@, agent_id)) || (
        after.roster@ == before.roster@ && after.succession@ == before.succession@),
    ensures
        ranked_by_fitness(after.succession@, after.roster@),
{
    let line = before.succession@;
    let roster = before.roster@;
    if !(after.roster@ == roster && after.succession@ == line) {
        let i = choose|i: int|
            first_with_id(roster, agent_id, i) && after.roster@ == roster.remove(i) && removed_from_line(
                line,
                after.succession@,
                agent_id,
            );
        let new_line = after.succession@;
        // The line after the call: the old line without `agent_id`, others in order.
        let pos: int = if line.contains(agent_id) {
            choose|p: int| 0 <= p < line.len() && line[p] == agent_id && new_line == line.remove(p)
        } else {
            -1
        };
        let old_index = |x: int| if pos >= 0 && x >= pos { x + 1 } else { x };
        assert forall|x: int| 0 <= x < new_line.len() implies new_line[x] == line[old_index(x)]
            && new_line[x] != agent_id && 0 <= old_index(x) < line.len() by {
            if pos >= 0 {
                assert(new_line[x] == line.remove(pos)[x]);
                if line[old_index(x)] == agent_id {
                    assert(old_index(x) != pos);
                    assert(line[old_index(x)] == line[pos]);
                }
            } else {
                assert(line[x] != agent_id) by {
                    if line[x] == agent_id {
                        assert(line.contains(agent_id));
                    }
                }
            }
        }
        assert forall|x: int| 0 <= x < new_line.len() implies fitness_of(after.roster@, new_line[x])
            == fitness_of(roster, #[trigger] new_line[x]) by {
            lemma_fitness_of_remove(roster, i, new_line[x]);
        }
        assert forall|x: int| 0 <= x < new_line.len() implies (#[trigger] fitness_of(
            after.roster@,
            new_line[x],
        )) is Some by {
            assert(fitness_of(roster, line[old_index(x)]) is Some);
        }
        assert forall|a: int, b: int| 0 <= a < b < new_line.len() implies fitness_of(
            after.roster@,
            #[trigger] new_line[a],
        )->0 >= fitness_of(after.roster@, #[trigger] new_line[b])->0 by {
            assert(old_index(a) < old_index(b));
            assert(fitness_of(roster, line[old_index(a)])->0 >= fitness_of(roster, line[old_index(b)])->0);
        }
    }
}

} // verus!
