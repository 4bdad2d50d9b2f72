//! The situation room: one ternary report per agent, aggregated fleet-wide.

use vstd::prelude::*;
use crate::ternary::Ternary;
use crate::decision::{plurality, pick_plurality, decision, count_of, lemma_counts_cover_votes};
use crate::registry::{Registry, count_eq, tally, keys_with, lemma_count_eq, lemma_count_eq_push,
    lemma_count_eq_bounded, lemma_map_of_finite};

verus! {

/// The fleet-wide picture: no reports reads as Zero, otherwise the plurality
/// of the reported values (ties go to Negative, then Zero).
pub open spec fn aggregate_of(m: Map<Seq<char>, Ternary>) -> Ternary {
    if m.len() == 0 {
        Ternary::Zero
    } else {
        plurality(
            tally(m, Ternary::Negative),
            tally(m, Ternary::Zero),
            tally(m, Ternary::Positive),
        )
    }
}

/// Aggregates sensor data from agents for decision making.
///
/// Each agent reports a ternary value representing their local situation.
/// The situation room aggregates these into a fleet-wide picture.
#[derive(Debug, Clone)]
pub struct SituationRoom {
    reports: Registry<Ternary>,
}

impl SituationRoom {
    /// The latest report of each agent.
    pub closed spec fn view(&self) -> Map<Seq<char>, Ternary> {
        self.reports@
    }

    pub fn new() -> (r: Self)
        ensures
            r@ == Map::<Seq<char>, Ternary>::empty(),
    {
        Self { reports: Registry::new() }
    }

    /// Submit a report from an agent; it replaces the agent's earlier report.
    pub fn report(&mut self, agent_id: &str, value: Ternary)
        ensures
            final(self)@ == old(self)@.insert(agent_id@, value),
    {
        self.reports.insert(agent_id.to_owned(), value);
    }

    /// Counts the reports of each value: (negative, zero, positive).
    fn tally_reports(&self) -> (r: (usize, usize, usize))
        ensures
            r.0 == tally(self@, Ternary::Negative),
            r.1 == tally(self@, Ternary::Zero),
            r.2 == tally(self@, Ternary::Positive),
    {
        proof {
            use_type_invariant(&self.reports);
        }
        let ghost p = self.reports.pairs();
        let mut neg: usize = 0;
        let mut zero: usize = 0;
        let mut pos: usize = 0;
        let n = self.reports.len();
        for i in 0..n
            invariant
                n == p.len(),
                p == self.reports.pairs(),
                neg == count_eq(p.take(i as int), Ternary::Negative),
                zero == count_eq(p.take(i as int), Ternary::Zero),
                pos == count_eq(p.take(i as int), Ternary::Positive),
        {
            proof {
                assert(p.take(i + 1) =~= p.take(i as int).push(p[i as int]));
                lemma_count_eq_push(p.take(i as int), p[i as int], Ternary::Negative);
                lemma_count_eq_push(p.take(i as int), p[i as int], Ternary::Zero);
                lemma_count_eq_push(p.take(i as int), p[i as int], Ternary::Positive);
                lemma_count_eq_bounded(p.take(i as int), Ternary::Negative);
                lemma_count_eq_bounded(p.take(i as int), Ternary::Zero);
                lemma_count_eq_bounded(p.take(i as int), Ternary::Positive);
            }
            match *self.reports.value_at(i) {
                Ternary::Negative => neg = neg + 1,
                Ternary::Zero => zero = zero + 1,
                Ternary::Positive => pos = pos + 1,
            }
        }
        proof {
            assert(p.take(n as int) =~= p);
            lemma_count_eq(p, Ternary::Negative);
            lemma_count_eq(p, Ternary::Zero);
            lemma_count_eq(p, Ternary::Positive);
        }
        (neg, zero, pos)
    }

    /// Aggregate reports into a single ternary value (majority).
    pub fn aggregate(&self) -> (r: Ternary)
        ensures
            r == aggregate_of(self@),
    {
        if self.reports.len() == 0 {
            return Ternary::Zero;
        }
        let (neg, zero, pos) = self.tally_reports();
        pick_plurality(neg, zero, pos)
    }

    /// Number of reports received (one per agent).
    pub fn report_count(&self) -> (r: usize)
        ensures
            r == self@.len(),
    {
        self.reports.len()
    }

    /// Distribution of reports: (negative_count, zero_count, positive_count).
    pub fn distribution(&self) -> (r: (usize, usize, usize))
        ensures
            r.0 == tally(self@, Ternary::Negative),
            r.1 == tally(self@, Ternary::Zero),
            r.2 == tally(self@, Ternary::Positive),
    {
        self.tally_reports()
    }

    /// Clear all reports.
    pub fn clear(&mut self)
        ensures
            final(self)@ == Map::<Seq<char>, Ternary>::empty(),
    {
        self.reports.clear();
    }

    /// A room holds finitely many reports.
    pub proof fn lemma_finite(&self)
        ensures
            self@.dom().finite(),
    {
        lemma_map_of_finite(self.reports.pairs());
    }

    /// Every report counts for exactly one value: the three tallies of
    /// `distribution` add up to `report_count`.
    pub proof fn lemma_tallies_cover_reports(&self)
        ensures
            tally(self@, Ternary::Negative) + tally(self@, Ternary::Zero) + tally(
                self@,
                Ternary::Positive,
            ) == self@.len(),
    {
        self.lemma_finite();
        let m = self@;
        let a = keys_with(m, Ternary::Negative);
        let b = keys_with(m, Ternary::Zero);
        let c = keys_with(m, Ternary::Positive);
        assert(a.disjoint(b));
        assert((a + b).disjoint(c));
        vstd::set_lib::lemma_set_disjoint_lens(a, b);
        vstd::set_lib::lemma_set_disjoint_lens(a + b, c);
        assert(a + b + c =~= m.dom());
    }

    /// Reporting counts agents, not reports: a new agent adds one to
    /// `report_count`, a repeated report from the same agent adds nothing.
    pub proof fn lemma_report_count_after_report(&self, agent_id: Seq<char>, value: Ternary)
        ensures
            self@.insert(agent_id, value).len() == self@.len() + if self@.contains_key(agent_id) {
                0int
            } else {
                1int
            },
    {
        self.lemma_finite();
        assert(self@.insert(agent_id, value).dom() =~= self@.dom().insert(agent_id));
    }

    /// The room aggregates as the decision engine decides: listing the room's
    /// reports as votes, in any order, a quorum the room meets decides for the
    /// aggregate. (An empty room aggregates to Zero, where no votes would
    /// decide for Negative.)
    pub proof fn lemma_aggregate_agrees_with_decide(&self, votes: Seq<Ternary>, quorum: nat)
        requires
            self@.len() > 0,
            quorum <= self@.len(),
            forall|t: Ternary| count_of(votes, t) == tally(self@, t),
        ensures
            decision(quorum, votes) == Some(aggregate_of(self@)),
    {
        self.lemma_tallies_cover_reports();
        lemma_counts_cover_votes(votes);
        assert(count_of(votes, Ternary::Negative) == tally(self@, Ternary::Negative));
        assert(count_of(votes, Ternary::Zero) == tally(self@, Ternary::Zero));
        assert(count_of(votes, Ternary::Positive) == tally(self@, Ternary::Positive));
    }
}

} // verus!
