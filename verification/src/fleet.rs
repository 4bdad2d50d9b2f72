//! Status aggregation from subordinate agents.

use vstd::prelude::*;
use crate::ternary::AgentStatus;
use crate::registry::{Registry, count_eq, tally, keys_with, lemma_count_eq, lemma_count_eq_push,
    lemma_count_eq_bounded, lemma_map_of, lemma_map_of_finite};

verus! {

/// Every status that some agent has, each listed once with its count.
pub open spec fn counts_match(m: Map<Seq<char>, AgentStatus>, c: Seq<(AgentStatus, usize)>) -> bool {
    &&& forall|i: int| 0 <= i < c.len() ==> c[i].1 == tally(m, c[i].0) && c[i].1 > 0
    &&& forall|s: AgentStatus| tally(m, s) > 0 ==> exists|i: int| 0 <= i < c.len() && c[i].0 == s
    &&& forall|i: int, j: int| 0 <= i < c.len() && 0 <= j < c.len() && i != j ==> c[i].0 != c[j].0
}

/// Sum of the counts in a list of (status, count) pairs.
pub open spec fn sum_counts(c: Seq<(AgentStatus, usize)>) -> nat
    decreases c.len(),
{
    if c.len() == 0 {
        0
    } else {
        sum_counts(c.drop_last()) + c.last().1 as nat
    }
}

/// `s` is listed in `c`.
pub open spec fn lists(c: Seq<(AgentStatus, usize)>, s: AgentStatus) -> bool {
    exists|i: int| 0 <= i < c.len() && c[i].0 == s
}

/// The tally of `s` if `c` lists it, else nothing.
pub open spec fn listed_tally(m: Map<Seq<char>, AgentStatus>, c: Seq<(AgentStatus, usize)>, s: AgentStatus) -> nat {
    if lists(c, s) {
        tally(m, s)
    } else {
        0
    }
}

/// Summing a list of distinct statuses with their tallies sums the tallies of
/// the statuses listed.
proof fn lemma_sum_listed(m: Map<Seq<char>, AgentStatus>, c: Seq<(AgentStatus, usize)>)
    requires
        forall|i: int| 0 <= i < c.len() ==> c[i].1 == tally(m, c[i].0),
        forall|i: int, j: int| 0 <= i < c.len() && 0 <= j < c.len() && i != j ==> c[i].0 != c[j].0,
    ensures
        sum_counts(c) == listed_tally(m, c, AgentStatus::Ready) + listed_tally(m, c, AgentStatus::Busy)
            + listed_tally(m, c, AgentStatus::Offline) + listed_tally(m, c, AgentStatus::Compromised),
    decreases c.len(),
{
    if c.len() > 0 {
        let d = c.drop_last();
        lemma_sum_listed(m, d);
        let last = c.last();
        assert forall|s: AgentStatus| lists(c, s) == (lists(d, s) || last.0 == s) by {
            if lists(c, s) && last.0 != s {
                let i = choose|i: int| 0 <= i < c.len() && c[i].0 == s;
                assert(d[i].0 == s);
            }
            if lists(d, s) {
                let i = choose|i: int| 0 <= i < d.len() && d[i].0 == s;
                assert(c[i].0 == s);
            }
            if last.0 == s {
                assert(c[c.len() - 1].0 == s);
            }
        }
        assert(!lists(d, last.0)) by {
            if lists(d, last.0) {
                let i = choose|i: int| 0 <= i < d.len() && d[i].0 == last.0;
                assert(c[i].0 == c[c.len() - 1].0);
            }
        }
        assert(lists(c, AgentStatus::Ready) == (lists(d, AgentStatus::Ready) || last.0 == AgentStatus::Ready));
        assert(lists(c, AgentStatus::Busy) == (lists(d, AgentStatus::Busy) || last.0 == AgentStatus::Busy));
        assert(lists(c, AgentStatus::Offline) == (lists(d, AgentStatus::Offline) || last.0 == AgentStatus::Offline));
        assert(lists(c, AgentStatus::Compromised) == (lists(d, AgentStatus::Compromised) || last.0
            == AgentStatus::Compromised));
    } else {
        assert(!lists(c, AgentStatus::Ready));
        assert(!lists(c, AgentStatus::Busy));
        assert(!lists(c, AgentStatus::Offline));
        assert(!lists(c, AgentStatus::Compromised));
    }
}

/// Status aggregation from subordinate agents.
#[derive(Debug, Clone)]
pub struct FleetReport {
    agent_reports: Registry<AgentStatus>,
}

impl FleetReport {
    /// The latest status of each agent.
    pub closed spec fn view(&self) -> Map<Seq<char>, AgentStatus> {
        self.agent_reports@
    }

    pub fn new() -> (r: Self)
        ensures
            r@ == Map::<Seq<char>, AgentStatus>::empty(),
    {
        Self { agent_reports: Registry::new() }
    }

    /// Add an agent's status to the report, replacing an earlier one.
    pub fn add(&mut self, agent_id: &str, status: AgentStatus)
        ensures
            final(self)@ == old(self)@.insert(agent_id@, status),
    {
        self.agent_reports.insert(agent_id.to_owned(), status);
    }

    /// The status reported for an agent, if any.
    pub fn status_of(&self, agent_id: &str) -> (r: Option<AgentStatus>)
        ensures
            match r {
                Some(s) => self@.contains_key(agent_id@) && s == self@[agent_id@],
                None => !self@.contains_key(agent_id@),
            },
    {
        match self.agent_reports.get(agent_id) {
            Some(s) => Some(*s),
            None => None,
        }
    }

    /// Every agent in the report with its status, each agent once.
    pub fn agent_statuses(&self) -> (r: Vec<(&str, AgentStatus)>)
        ensures
            r@.len() == self@.len(),
            forall|i: int|
                0 <= i < r@.len() ==> self@.contains_key(#[trigger] r@[i].0@) && self@[r@[i].0@] == r@[i].1,
            forall|k: Seq<char>| self@.contains_key(k) ==> exists|i: int| 0 <= i < r@.len() && r@[i].0@ == k,
            forall|i: int, j: int| 0 <= i < r@.len() && 0 <= j < r@.len() && i != j ==> r@[i].0@ != r@[j].0@,
    {
        proof {
            use_type_invariant(&self.agent_reports);
            lemma_map_of(self.agent_reports.pairs());
        }
        let ghost p = self.agent_reports.pairs();
        let mut out: Vec<(&str, AgentStatus)> = Vec::new();
        let n = self.agent_reports.len();
        for i in 0..n
            invariant
                n == p.len(),
                p == self.agent_reports.pairs(),
                out@.len() == i,
                forall|j: int| 0 <= j < i ==> (#[trigger] out@[j]).0@ == p[j].0 && out@[j].1 == p[j].1,
        {
            let k = self.agent_reports.key_at(i);
            let v = *self.agent_reports.value_at(i);
            out.push((k.as_str(), v));
        }
        proof {
            assert forall|i: int| 0 <= i < out@.len() implies self@.contains_key(#[trigger] out@[i].0@)
                && self@[out@[i].0@] == out@[i].1 by {
                assert(out@[i].0@ == p[i].0);
                assert(self@.contains_key(p[i].0));
            }
            assert forall|k: Seq<char>| self@.contains_key(k) implies exists|i: int| 0 <= i < out@.len()
                && out@[i].0@ == k by {
                let j = choose|j: int| 0 <= j < p.len() && p[j].0 == k;
                assert(out@[j].0@ == k);
            }
            assert forall|a: int, b: int| 0 <= a < out@.len() && 0 <= b < out@.len() && a != b implies out@[a].0@
                != out@[b].0@ by {
                assert(out@[a].0@ == p[a].0);
                assert(out@[b].0@ == p[b].0);
            }
        }
        out
    }

    /// Number of agents in the report.
    pub fn agent_count(&self) -> (r: usize)
        ensures
            r == self@.len(),
    {
        self.agent_reports.len()
    }

    /// Counts the agents in each status: (ready, busy, offline, compromised).
    fn tally_statuses(&self) -> (r: (usize, usize, usize, usize))
        ensures
            r.0 == tally(self@, AgentStatus::Ready),
            r.1 == tally(self@, AgentStatus::Busy),
            r.2 == tally(self@, AgentStatus::Offline),
            r.3 == tally(self@, AgentStatus::Compromised),
    {
        proof {
            use_type_invariant(&self.agent_reports);
        }
        let ghost p = self.agent_reports.pairs();
        let mut ready: usize = 0;
        let mut busy: usize = 0;
        let mut offline: usize = 0;
        let mut compromised: usize = 0;
        let n = self.agent_reports.len();
        for i in 0..n
            invariant
                n == p.len(),
                p == self.agent_reports.pairs(),
                ready == count_eq(p.take(i as int), AgentStatus::Ready),
                busy == count_eq(p.take(i as int), AgentStatus::Busy),
                offline == count_eq(p.take(i as int), AgentStatus::Offline),
                compromised == count_eq(p.take(i as int), AgentStatus::Compromised),
        {
            proof {
                let q = p.take(i as int);
                assert(p.take(i + 1) =~= q.push(p[i as int]));
                lemma_count_eq_push(q, p[i as int], AgentStatus::Ready);
                lemma_count_eq_push(q, p[i as int], AgentStatus::Busy);
                lemma_count_eq_push(q, p[i as int], AgentStatus::Offline);
                lemma_count_eq_push(q, p[i as int], AgentStatus::Compromised);
                lemma_count_eq_bounded(q, AgentStatus::Ready);
                lemma_count_eq_bounded(q, AgentStatus::Busy);
                lemma_count_eq_bounded(q, AgentStatus::Offline);
                lemma_count_eq_bounded(q, AgentStatus::Compromised);
            }
            match *self.agent_reports.value_at(i) {
                AgentStatus::Ready => ready = ready + 1,
                AgentStatus::Busy => busy = busy + 1,
                AgentStatus::Offline => offline = offline + 1,
                AgentStatus::Compromised => compromised = compromised + 1,
            }
        }
        proof {
            assert(p.take(n as int) =~= p);
            lemma_count_eq(p, AgentStatus::Ready);
            lemma_count_eq(p, AgentStatus::Busy);
            lemma_count_eq(p, AgentStatus::Offline);
            lemma_count_eq(p, AgentStatus::Compromised);
        }
        (ready, busy, offline, compromised)
    }

    /// Count of agents in each status, for the statuses that occur.
    pub fn status_counts(&self) -> (r: Vec<(AgentStatus, usize)>)
        ensures
            counts_match(self@, r@),
    {
        let (ready, busy, offline, compromised) = self.tally_statuses();
        let mut counts: Vec<(AgentStatus, usize)> = Vec::new();
        if ready > 0 {
            counts.push((AgentStatus::Ready, ready));
        }
        if busy > 0 {
            counts.push((AgentStatus::Busy, busy));
        }
        if offline > 0 {
            counts.push((AgentStatus::Offline, offline));
        }
        if compromised > 0 {
            counts.push((AgentStatus::Compromised, compromised));
        }
        proof {
            assert forall|s: AgentStatus| tally(self@, s) > 0 implies exists|i: int|
                0 <= i < counts@.len() && counts@[i].0 == s by {
                match s {
                    AgentStatus::Ready => assert(counts@[0].0 == s),
                    AgentStatus::Busy => {
                        let i: int = if ready > 0 { 1 } else { 0 };
                        assert(counts@[i].0 == s);
                    },
                    AgentStatus::Offline => {
                        let i: int = (if ready > 0 { 1int } else { 0int }) + (if busy > 0 { 1int } else { 0int });
                        assert(counts@[i].0 == s);
                    },
                    AgentStatus::Compromised => {
                        let i: int = (if ready > 0 { 1int } else { 0int }) + (if busy > 0 { 1int } else { 0int })
                            + (if offline > 0 { 1int } else { 0int });
                        assert(counts@[i].0 == s);
                    },
                }
            }
        }
        counts
    }

    /// The health of the fleet as a fraction: (Ready agents, all agents).
    pub fn health_fraction(&self) -> (r: (usize, usize))
        ensures
            r.0 == tally(self@, AgentStatus::Ready),
            r.1 == self@.len(),
    {
        let (ready, _, _, _) = self.tally_statuses();
        (ready, self.agent_reports.len())
    }

    /// Is the fleet operational? (at least one Ready agent and no Compromised).
    pub fn operational(&self) -> (r: bool)
        ensures
            r == (tally(self@, AgentStatus::Ready) > 0 && tally(self@, AgentStatus::Compromised) == 0),
    {
        let (ready, _, _, compromised) = self.tally_statuses();
        ready > 0 && compromised == 0
    }

    /// Agents that are currently offline, each once.
    pub fn offline_agents(&self) -> (r: Vec<&str>)
        ensures
            r@.len() == tally(self@, AgentStatus::Offline),
            forall|i: int|
                0 <= i < r@.len() ==> self@.contains_key(#[trigger] r@[i]@) && self@[r@[i]@]
                    == AgentStatus::Offline,
            forall|k: Seq<char>|
                self@.contains_key(k) && self@[k] == AgentStatus::Offline ==> exists|i: int|
                    0 <= i < r@.len() && r@[i]@ == k,
            forall|i: int, j: int| 0 <= i < r@.len() && 0 <= j < r@.len() && i != j ==> r@[i]@ != r@[j]@,
    {
        proof {
            use_type_invariant(&self.agent_reports);
            lemma_map_of(self.agent_reports.pairs());
        }
        let ghost p = self.agent_reports.pairs();
        let mut out: Vec<&str> = Vec::new();
        let ghost mut from: Seq<int> = Seq::empty();
        let n = self.agent_reports.len();
        for i in 0..n
            invariant
                n == p.len(),
                p == self.agent_reports.pairs(),
                crate::registry::keys_distinct(p),
                self@ == crate::registry::map_of(p),
                out@.len() == count_eq(p.take(i as int), AgentStatus::Offline),
                out@.len() == from.len(),
                forall|j: int| 0 <= j < from.len() ==> 0 <= #[trigger] from[j] < i && p[from[j]].0 == out@[j]@
                    && p[from[j]].1 == AgentStatus::Offline,
                forall|a: int, b: int| 0 <= a < b < from.len() ==> from[a] < from[b],
                forall|j: int| 0 <= j < i && p[j].1 == AgentStatus::Offline ==> exists|a: int|
                    0 <= a < from.len() && from[a] == j,
        {
            proof {
                let q = p.take(i as int);
                assert(p.take(i + 1) =~= q.push(p[i as int]));
                lemma_count_eq_push(q, p[i as int], AgentStatus::Offline);
                lemma_count_eq_bounded(q, AgentStatus::Offline);
            }
            let ghost from0 = from;
            if *self.agent_reports.value_at(i) == AgentStatus::Offline {
                let k = self.agent_reports.key_at(i);
                out.push(k.as_str());
                proof {
                    from = from.push(i as int);
                    assert(from[from.len() - 1] == i);
                }
            }
            proof {
                assert forall|j: int| 0 <= j < i + 1 && p[j].1 == AgentStatus::Offline implies exists|a: int|
                    0 <= a < from.len() && from[a] == j by {
                    if j == i {
                        assert(from[from.len() - 1] == j);
                    } else {
                        let a = choose|a: int| 0 <= a < from0.len() && from0[a] == j;
                        assert(from[a] == j);
                    }
                }
            }
        }
        proof {
            lemma_map_of(p);
            assert(p.take(n as int) =~= p);
            lemma_count_eq(p, AgentStatus::Offline);
            assert forall|k: Seq<char>| self@.contains_key(k) && self@[k] == AgentStatus::Offline implies exists|i: int|
                0 <= i < out@.len() && out@[i]@ == k by {
                let j = choose|j: int| 0 <= j < p.len() && p[j].0 == k;
                assert(self@.contains_key(p[j].0));
                let a = choose|a: int| 0 <= a < from.len() && from[a] == j;
                assert(out@[a]@ == k);
            }
            assert forall|a: int, b: int| 0 <= a < out@.len() && 0 <= b < out@.len() && a != b implies out@[a]@
                != out@[b]@ by {
                assert(from[a] != from[b]) by {
                    if a < b {
                        assert(from[a] < from[b]);
                    } else {
                        assert(from[b] < from[a]);
                    }
                }
            }
            assert forall|i: int| 0 <= i < out@.len() implies self@.contains_key(#[trigger] out@[i]@)
                && self@[out@[i]@] == AgentStatus::Offline by {
                assert(self@.contains_key(p[from[i]].0));
            }
        }
        out
    }

    /// A report holds finitely many agents.
    pub proof fn lemma_finite(&self)
        ensures
            self@.dom().finite(),
    {
        lemma_map_of_finite(self.agent_reports.pairs());
    }

    /// Every agent is in exactly one status.
    pub proof fn lemma_statuses_cover_fleet(&self)
        ensures
            tally(self@, AgentStatus::Ready) + tally(self@, AgentStatus::Busy) + tally(
                self@,
                AgentStatus::Offline,
            ) + tally(self@, AgentStatus::Compromised) == self@.len(),
    {
        self.lemma_finite();
        let m = self@;
        let a = keys_with(m, AgentStatus::Ready);
        let b = keys_with(m, AgentStatus::Busy);
        let c = keys_with(m, AgentStatus::Offline);
        let d = keys_with(m, AgentStatus::Compromised);
        assert(a.disjoint(b));
        assert((a + b).disjoint(c));
        assert((a + b + c).disjoint(d));
        vstd::set_lib::lemma_set_disjoint_lens(a, b);
        vstd::set_lib::lemma_set_disjoint_lens(a + b, c);
        vstd::set_lib::lemma_set_disjoint_lens(a + b + c, d);
        assert(a + b + c + d =~= m.dom());
    }

    /// The counts of `status_counts` add up to the number of agents.
    pub proof fn lemma_status_counts_cover_fleet(&self, counts: Seq<(AgentStatus, usize)>)
        requires
            counts_match(self@, counts),
        ensures
            sum_counts(counts) == self@.len(),
    {
        self.lemma_statuses_cover_fleet();
        lemma_sum_listed(self@, counts);
        let m = self@;
        assert(listed_tally(m, counts, AgentStatus::Ready) == tally(m, AgentStatus::Ready));
        assert(listed_tally(m, counts, AgentStatus::Busy) == tally(m, AgentStatus::Busy));
        assert(listed_tally(m, counts, AgentStatus::Offline) == tally(m, AgentStatus::Offline));
        assert(listed_tally(m, counts, AgentStatus::Compromised) == tally(m, AgentStatus::Compromised));
    }

    /// Health is a fraction of at most one: no more agents are Ready than
    /// there are agents.
    pub proof fn lemma_health_at_most_one(&self)
        ensures
            tally(self@, AgentStatus::Ready) <= self@.len(),
    {
        self.lemma_statuses_cover_fleet();
    }
}

} // verus!
