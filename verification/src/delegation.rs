//! Agents and the assignment of tasks to them.

use vstd::prelude::*;
use crate::ternary::AgentStatus;
use crate::registry::{Registry, lemma_map_of_finite};

verus! {

/// Information about an agent in the fleet.
#[derive(Debug, Clone)]
pub struct AgentInfo {
    pub id: String,
    pub status: AgentStatus,
    pub specialization: String,
    /// The agent's fitness as an order key: of two agents, the one with the
    /// larger key is the fitter.
    pub fitness: u64,
}

/// May `a` take a task of type `task_type`? It must be Ready and specialised
/// in that type.
pub open spec fn is_candidate(a: AgentInfo, task_type: Seq<char>) -> bool {
    a.status == AgentStatus::Ready && a.specialization@ == task_type
}

/// `agents[i]` is the best fit for the task: a candidate that no candidate
/// beats on fitness, and that every later candidate falls short of (of equally
/// fit candidates, the last one is picked).
pub open spec fn is_best_fit(agents: Seq<AgentInfo>, task_type: Seq<char>, i: int) -> bool {
    &&& 0 <= i < agents.len()
    &&& is_candidate(agents[i], task_type)
    &&& forall|j: int|
        0 <= j < agents.len() && is_candidate(#[trigger] agents[j], task_type) ==> agents[j].fitness
            <= agents[i].fitness
    &&& forall|j: int|
        i < j < agents.len() && is_candidate(#[trigger] agents[j], task_type) ==> agents[j].fitness
            < agents[i].fitness
}

/// Some agent may take a task of type `task_type`.
pub open spec fn has_candidate(agents: Seq<AgentInfo>, task_type: Seq<char>) -> bool {
    exists|j: int| 0 <= j < agents.len() && is_candidate(#[trigger] agents[j], task_type)
}

/// Index of the best fit among `agents`, if any agent may take the task.
fn best_fit(agents: &[AgentInfo], task_type: &str) -> (r: Option<usize>)
    ensures
        match r {
            Some(i) => is_best_fit(agents@, task_type@, i as int),
            None => !has_candidate(agents@, task_type@),
        },
{
    let tt = task_type.to_owned();
    let mut best: Option<usize> = None;
    let n = agents.len();
    for i in 0..n
        invariant
            n == agents@.len(),
            tt@ == task_type@,
            match best {
                Some(b) => is_best_fit(agents@.take(i as int), task_type@, b as int),
                None => !has_candidate(agents@.take(i as int), task_type@),
            },
    {
        let a = &agents[i];
        let ghost prefix = agents@.take(i as int);
        let ghost next = agents@.take(i + 1);
        proof {
            assert(next =~= prefix.push(agents@[i as int]));
        }
        if a.status.available() && a.specialization == tt {
            match best {
                None => {
                    best = Some(i);
                    proof {
                        assert forall|j: int|
                            0 <= j < next.len() && is_candidate(#[trigger] next[j], task_type@) implies next[j].fitness
                            <= next[i as int].fitness by {
                            if j < i {
                                assert(prefix[j] == next[j]);
                            }
                        }
                    }
                },
                Some(b) => {
                    if agents[b].fitness <= a.fitness {
                        best = Some(i);
                        proof {
                            assert forall|j: int|
                                0 <= j < next.len() && is_candidate(#[trigger] next[j], task_type@) implies next[j].fitness
                                <= next[i as int].fitness by {
                                if j < i {
                                    assert(prefix[j] == next[j]);
                                }
                            }
                        }
                    } else {
                        proof {
                            assert(prefix[b as int] == next[b as int]);
                            assert forall|j: int|
                                0 <= j < next.len() && is_candidate(#[trigger] next[j], task_type@) implies next[j].fitness
                                <= next[b as int].fitness by {
                                if j < i {
                                    assert(prefix[j] == next[j]);
                                }
                            }
                            assert forall|j: int|
                                b < j < next.len() && is_candidate(#[trigger] next[j], task_type@) implies next[j].fitness
                                < next[b as int].fitness by {
                                if j < i {
                                    assert(prefix[j] == next[j]);
                                }
                            }
                        }
                    }
                },
            }
        } else {
            proof {
                assert(!is_candidate(next[i as int], task_type@));
                match best {
                    Some(b) => {
                        assert(prefix[b as int] == next[b as int]);
                        assert forall|j: int|
                            0 <= j < next.len() && is_candidate(#[trigger] next[j], task_type@) implies next[j].fitness
                            <= next[b as int].fitness by {
                            if j < i {
                                assert(prefix[j] == next[j]);
                            }
                        }
                        assert forall|j: int|
                            b < j < next.len() && is_candidate(#[trigger] next[j], task_type@) implies next[j].fitness
                            < next[b as int].fitness by {
                            if j < i {
                                assert(prefix[j] == next[j]);
                            }
                        }
                    },
                    None => {
                        if has_candidate(next, task_type@) {
                            let j = choose|j: int| 0 <= j < next.len() && is_candidate(#[trigger] next[j], task_type@);
                            assert(prefix[j] == next[j]);
                        }
                    },
                }
            }
        }
    }
    proof {
        assert(agents@.take(n as int) =~= agents@);
    }
    best
}

/// Assigns tasks to agents based on specialization and fitness.
#[derive(Debug, Clone)]
pub struct Delegator {
    /// Pending assignments: task → assigned agent id.
    assignments: Registry<String>,
}

impl Delegator {
    /// The pending assignments, from task to agent.
    pub closed spec fn view(&self) -> Map<Seq<char>, Seq<char>> {
        self.assignments@.map_values(|a: String| a@)
    }

    pub fn new() -> (r: Self)
        ensures
            r@ == Map::<Seq<char>, Seq<char>>::empty(),
    {
        let r = Self { assignments: Registry::new() };
        assert(r@ =~= Map::<Seq<char>, Seq<char>>::empty());
        r
    }

    /// Assign a task to the best-fit agent from the pool.
    /// Returns the assigned agent's id, or None if no suitable agent found.
    pub fn assign(&mut self, task_id: &str, task_type: &str, agents: &[AgentInfo]) -> (r: Option<String>)
        ensures
            r is None <==> !has_candidate(agents@, task_type@),
            match r {
                Some(id) => final(self)@ == old(self)@.insert(task_id@, id@) && exists|i: int|
                    is_best_fit(agents@, task_type@, i) && #[trigger] agents@[i].id@ == id@,
                None => final(self)@ == old(self)@,
            },
            r is None <==> forall|j: int|
                0 <= j < agents@.len() ==> !((#[trigger] agents@[j]).status == AgentStatus::Ready
                    && agents@[j].specialization@ == task_type@),
            r matches Some(id) ==> exists|i: int|
                0 <= i < agents@.len() && (#[trigger] agents@[i]).id@ == id@ && agents@[i].status
                    == AgentStatus::Ready && agents@[i].specialization@ == task_type@ && forall|j: int|
                    0 <= j < agents@.len() && (#[trigger] agents@[j]).status == AgentStatus::Ready
                        && agents@[j].specialization@ == task_type@ ==> agents@[j].fitness
                        <= agents@[i].fitness,
    {
        proof {
            lemma_candidate_exists_iff_ready_specialist(agents@, task_type@);
        }
        match best_fit(agents, task_type) {
            Some(i) => {
                let id = agents[i].id.clone();
                self.assignments.insert(task_id.to_owned(), id.clone());
                proof {
                    assert(self@ =~= old(self)@.insert(task_id@, id@));
                    assert(agents@[i as int].id@ == id@);
                    lemma_best_fit_is_fittest_ready_specialist(agents@, task_type@, i as int);
                }
                Some(id)
            },
            None => None,
        }
    }

    /// Get the agent assigned to a task.
    pub fn get_assignment(&self, task_id: &str) -> (r: Option<&str>)
        ensures
            match r {
                Some(a) => self@.contains_key(task_id@) && a@ == self@[task_id@],
                None => !self@.contains_key(task_id@),
            },
    {
        match self.assignments.get(task_id) {
            Some(a) => Some(a.as_str()),
            None => None,
        }
    }

    /// Remove a completed assignment; tells whether there was one.
    pub fn complete(&mut self, task_id: &str) -> (r: bool)
        ensures
            r == old(self)@.contains_key(task_id@),
            final(self)@ == old(self)@.remove(task_id@),
    {
        let removed = self.assignments.remove(task_id);
        proof {
            assert(self@ =~= old(self)@.remove(task_id@));
        }
        removed.is_some()
    }

    /// A delegator holds finitely many assignments, so that assigning a new
    /// task adds one to `active_count` and completing one takes one away.
    pub proof fn lemma_finite(&self)
        ensures
            self@.dom().finite(),
    {
        lemma_map_of_finite(self.assignments.pairs());
        assert(self@.dom() =~= self.assignments@.dom());
    }

    /// Number of active assignments.
    pub fn active_count(&self) -> (r: usize)
        ensures
            r == self@.len(),
    {
        proof {
            assert(self@.dom() =~= self.assignments@.dom());
        }
        self.assignments.len()
    }
}

/// The best fit is unique: the agent that `assign` picks is determined by the
/// pool and the task type.
pub proof fn lemma_best_fit_unique(agents: Seq<AgentInfo>, task_type: Seq<char>, i: int, j: int)
    requires
        is_best_fit(agents, task_type, i),
        is_best_fit(agents, task_type, j),
    ensures
        i == j,
{
    if i < j {
        assert(agents[j].fitness < agents[i].fitness);
        assert(agents[i].fitness <= agents[j].fitness);
    } else if j < i {
        assert(agents[i].fitness < agents[j].fitness);
        assert(agents[j].fitness <= agents[i].fitness);
    }
}

/// What an assignment records is read back: after `assign` gives a task to
/// an agent, `get_assignment` of that task gives the agent, and every other
/// task keeps its assignment.
pub proof fn lemma_assignment_read_back(
    before: &Delegator,
    after: &Delegator,
    task_id: Seq<char>,
    agent_id: Seq<char>,
    other: Seq<char>,
)
    requires
        after@ == before@.insert(task_id, agent_id),
    ensures
        after@.contains_key(task_id),
        after@[task_id] == agent_id,
        other != task_id ==> after@.contains_key(other) == before@.contains_key(other),
        other != task_id && before@.contains_key(other) ==> after@[other] == before@[other],
{
}

/// Completing a freshly assigned task succeeds and leaves the assignments as
/// they were before the task was assigned.
pub proof fn lemma_complete_undoes_assign(
    before: &Delegator,
    assigned: &Delegator,
    completed: &Delegator,
    task_id: Seq<char>,
    agent_id: Seq<char>,
)
    requires
        !before@.contains_key(task_id),
        assigned@ == before@.insert(task_id, agent_id),
        completed@ == assigned@.remove(task_id),
    ensures
        assigned@.contains_key(task_id),
        completed@ == before@,
{
    assert(completed@ =~= before@);
}

/// `active_count` follows the tasks: assigning a new task adds one,
/// reassigning a pending one adds nothing, and completing a pending task
/// takes one away.
pub proof fn lemma_active_count_follows_tasks(
    before: &Delegator,
    assigned: Map<Seq<char>, Seq<char>>,
    completed: Map<Seq<char>, Seq<char>>,
    task_id: Seq<char>,
    agent_id: Seq<char>,
)
    requires
        assigned == before@.insert(task_id, agent_id),
        completed == before@.remove(task_id),
    ensures
        assigned.len() == before@.len() + if before@.contains_key(task_id) { 0int } else { 1int },
        completed.len() == before@.len() - if before@.contains_key(task_id) { 1int } else { 0int },
{
    before.lemma_finite();
    assert(assigned.dom() =~= before@.dom().insert(task_id));
    assert(completed.dom() =~= before@.dom().remove(task_id));
}

/// Some agent may take the task exactly when some agent is Ready and
/// specialised in the task type, letter for letter.
pub proof fn lemma_candidate_exists_iff_ready_specialist(agents: Seq<AgentInfo>, task_type: Seq<char>)
    ensures
        has_candidate(agents, task_type) <==> exists|j: int|
            0 <= j < agents.len() && (#[trigger] agents[j]).status == AgentStatus::Ready
                && agents[j].specialization@ == task_type,
{
    if has_candidate(agents, task_type) {
        let j = choose|j: int| 0 <= j < agents.len() && is_candidate(#[trigger] agents[j], task_type);
        assert(agents[j].status == AgentStatus::Ready && agents[j].specialization@ == task_type);
    }
    if exists|j: int|
        0 <= j < agents.len() && (#[trigger] agents[j]).status == AgentStatus::Ready
            && agents[j].specialization@ == task_type {
        let j = choose|j: int|
            0 <= j < agents.len() && (#[trigger] agents[j]).status == AgentStatus::Ready
                && agents[j].specialization@ == task_type;
        assert(is_candidate(agents[j], task_type));
    }
}

/// The best fit, which `assign` hands the task to, is Ready, is specialised
/// in exactly the task type, and is at least as fit as every Ready agent
/// specialised in it: an agent of another specialization is never chosen.
pub proof fn lemma_best_fit_is_fittest_ready_specialist(agents: Seq<AgentInfo>, task_type: Seq<char>, i: int)
    requires
        is_best_fit(agents, task_type, i),
    ensures
        0 <= i < agents.len(),
        agents[i].status == AgentStatus::Ready,
        agents[i].specialization@ == task_type,
        forall|j: int|
            0 <= j < agents.len() && (#[trigger] agents[j]).status == AgentStatus::Ready
                && agents[j].specialization@ == task_type ==> agents[j].fitness <= agents[i].fitness,
{
    assert forall|j: int|
        0 <= j < agents.len() && (#[trigger] agents[j]).status == AgentStatus::Ready
            && agents[j].specialization@ == task_type implies agents[j].fitness <= agents[i].fitness by {
        assert(is_candidate(agents[j], task_type));
    }
}

} // verus!
