//! Plurality decisions over ternary votes.

use vstd::prelude::*;
use vstd::multiset::Multiset;
use crate::ternary::Ternary;

verus! {

/// Number of occurrences of `t` in `s`.
pub open spec fn count_of(s: Seq<Ternary>, t: Ternary) -> nat
    decreases s.len(),
{
    if s.len() == 0 {
        0
    } else {
        count_of(s.drop_last(), t) + if s.last() == t { 1nat } else { 0nat }
    }
}

/// The value with the most votes, given the three tallies; ties go to
/// Negative first, then Zero.
pub open spec fn plurality(neg: nat, zero: nat, pos: nat) -> Ternary {
    if neg >= zero && neg >= pos {
        Ternary::Negative
    } else if zero >= neg && zero >= pos {
        Ternary::Zero
    } else {
        Ternary::Positive
    }
}

/// The plurality value of a sequence of votes.
pub open spec fn plurality_of(s: Seq<Ternary>) -> Ternary {
    plurality(
        count_of(s, Ternary::Negative),
        count_of(s, Ternary::Zero),
        count_of(s, Ternary::Positive),
    )
}

/// What `DecisionEngine::decide` returns: nothing below quorum, else the
/// plurality value.
pub open spec fn decision(quorum: nat, votes: Seq<Ternary>) -> Option<Ternary> {
    if votes.len() < quorum {
        None
    } else {
        Some(plurality_of(votes))
    }
}

/// Counting one more vote adds one to its own tally only.
proof fn lemma_count_push(s: Seq<Ternary>, v: Ternary, t: Ternary)
    ensures
        count_of(s.push(v), t) == count_of(s, t) + if v == t { 1nat } else { 0nat },
{
    assert(s.push(v).drop_last() =~= s);
}

/// A tally never exceeds the number of votes.
proof fn lemma_count_bounded(s: Seq<Ternary>, t: Ternary)
    ensures
        count_of(s, t) <= s.len(),
    decreases s.len(),
{
    if s.len() > 0 {
        lemma_count_bounded(s.drop_last(), t);
    }
}

/// Picks the plurality value from three tallies.
pub(crate) fn pick_plurality(neg: usize, zero: usize, pos: usize) -> (r: Ternary)
    ensures
        r == plurality(neg as nat, zero as nat, pos as nat),
{
    if neg >= zero && neg >= pos {
        Ternary::Negative
    } else if zero >= neg && zero >= pos {
        Ternary::Zero
    } else {
        Ternary::Positive
    }
}

/// Counts the votes of each value: (negative, zero, positive).
pub(crate) fn tally_votes(votes: &[Ternary]) -> (r: (usize, usize, usize))
    ensures
        r.0 == count_of(votes@, Ternary::Negative),
        r.1 == count_of(votes@, Ternary::Zero),
        r.2 == count_of(votes@, Ternary::Positive),
{
    let mut neg: usize = 0;
    let mut zero: usize = 0;
    let mut pos: usize = 0;
    let n = votes.len();
    for i in 0..n
        invariant
            n == votes@.len(),
            neg == count_of(votes@.take(i as int), Ternary::Negative),
            zero == count_of(votes@.take(i as int), Ternary::Zero),
            pos == count_of(votes@.take(i as int), Ternary::Positive),
    {
        proof {
            assert(votes@.take(i + 1) =~= votes@.take(i as int).push(votes@[i as int]));
            lemma_count_push(votes@.take(i as int), votes@[i as int], Ternary::Negative);
            lemma_count_push(votes@.take(i as int), votes@[i as int], Ternary::Zero);
            lemma_count_push(votes@.take(i as int), votes@[i as int], Ternary::Positive);
            lemma_count_bounded(votes@.take(i as int), Ternary::Negative);
            lemma_count_bounded(votes@.take(i as int), Ternary::Zero);
            lemma_count_bounded(votes@.take(i as int), Ternary::Positive);
        }
        match votes[i] {
            Ternary::Negative => neg = neg + 1,
            Ternary::Zero => zero = zero + 1,
            Ternary::Positive => pos = pos + 1,
        }
    }
    proof {
        assert(votes@.take(n as int) =~= votes@);
    }
    (neg, zero, pos)
}

/// Weighs ternary options and produces decisions.
///
/// Each option is a ternary value. The engine collects votes from agents
/// and produces a final ternary decision.
#[derive(Debug, Clone)]
pub struct DecisionEngine {
    /// Minimum number of votes required for a decision.
    pub quorum: usize,
}

impl DecisionEngine {
    pub fn new(quorum: usize) -> (r: Self)
        ensures
            r.quorum == quorum,
    {
        Self { quorum }
    }

    /// Decide from a list of ternary votes using majority rule.
    /// Returns None if quorum isn't met.
    pub fn decide(&self, votes: &[Ternary]) -> (r: Option<Ternary>)
        ensures
            r == decision(self.quorum as nat, votes@),
    {
        if votes.len() < self.quorum {
            return None;
        }
        let (neg, zero, pos) = tally_votes(votes);
        Some(pick_plurality(neg, zero, pos))
    }

    /// Consensus strength as a fraction: (votes for the decision, all votes).
    /// Without a decision no vote counts for it.
    pub fn consensus_fraction(&self, votes: &[Ternary]) -> (r: (usize, usize))
        ensures
            r.0 == match decision(self.quorum as nat, votes@) {
                Some(d) => count_of(votes@, d),
                None => 0,
            },
            r.1 == votes@.len(),
    {
        if votes.len() < self.quorum {
            return (0, votes.len());
        }
        let (neg, zero, pos) = tally_votes(votes);
        let majority = match pick_plurality(neg, zero, pos) {
            Ternary::Negative => neg,
            Ternary::Zero => zero,
            Ternary::Positive => pos,
        };
        (majority, votes.len())
    }
}

/// Preference among tied values: Negative before Zero before Positive.
pub open spec fn caution_rank(t: Ternary) -> nat {
    match t {
        Ternary::Negative => 0,
        Ternary::Zero => 1,
        Ternary::Positive => 2,
    }
}

/// Every vote counts for exactly one value.
pub proof fn lemma_counts_cover_votes(votes: Seq<Ternary>)
    ensures
        count_of(votes, Ternary::Negative) + count_of(votes, Ternary::Zero) + count_of(
            votes,
            Ternary::Positive,
        ) == votes.len(),
    decreases votes.len(),
{
    if votes.len() > 0 {
        lemma_counts_cover_votes(votes.drop_last());
    }
}

/// A decision, when one is made, is a value with the most votes; among values
/// with as many votes, it is the most cautious one.
pub proof fn lemma_decision_has_most_votes(quorum: nat, votes: Seq<Ternary>, t: Ternary)
    requires
        decision(quorum, votes) is Some,
    ensures
        count_of(votes, decision(quorum, votes)->0) >= count_of(votes, t),
        count_of(votes, decision(quorum, votes)->0) == count_of(votes, t) ==> caution_rank(
            decision(quorum, votes)->0,
        ) <= caution_rank(t),
{
}

/// The tally of a value that every vote agrees on is the number of votes, and
/// the other tallies are zero.
pub proof fn lemma_count_unanimous(votes: Seq<Ternary>, v: Ternary, t: Ternary)
    requires
        forall|i: int| 0 <= i < votes.len() ==> votes[i] == v,
    ensures
        count_of(votes, t) == if t == v { votes.len() } else { 0 },
    decreases votes.len(),
{
    if votes.len() > 0 {
        lemma_count_unanimous(votes.drop_last(), v, t);
    }
}

/// Unanimous votes that meet the quorum decide for the value voted.
pub proof fn lemma_decision_unanimous(quorum: nat, votes: Seq<Ternary>, v: Ternary)
    requires
        votes.len() > 0,
        quorum <= votes.len(),
        forall|i: int| 0 <= i < votes.len() ==> votes[i] == v,
    ensures
        decision(quorum, votes) == Some(v),
{
    lemma_count_unanimous(votes, v, Ternary::Negative);
    lemma_count_unanimous(votes, v, Ternary::Zero);
    lemma_count_unanimous(votes, v, Ternary::Positive);
}

/// A tally is the multiplicity of the value among the votes.
pub proof fn lemma_count_is_multiplicity(votes: Seq<Ternary>, t: Ternary)
    ensures
        count_of(votes, t) == votes.to_multiset().count(t),
    decreases votes.len(),
{
    broadcast use vstd::seq_lib::group_to_multiset_ensures;

    if votes.len() == 0 {
        assert(votes.to_multiset() =~= Multiset::empty());
    } else {
        let rest = votes.drop_last();
        lemma_count_is_multiplicity(rest, t);
        assert(rest.push(votes.last()) =~= votes);
    }
}

/// The order in which votes are cast does not matter: votes that are a
/// rearrangement of each other lead to the same decision.
pub proof fn lemma_decision_ignores_order(quorum: nat, votes1: Seq<Ternary>, votes2: Seq<Ternary>)
    requires
        votes1.to_multiset() == votes2.to_multiset(),
    ensures
        decision(quorum, votes1) == decision(quorum, votes2),
{
    broadcast use vstd::seq_lib::group_to_multiset_ensures;

    assert(votes1.len() == votes1.to_multiset().len());
    assert(votes2.len() == votes2.to_multiset().len());
    lemma_count_is_multiplicity(votes1, Ternary::Negative);
    lemma_count_is_multiplicity(votes1, Ternary::Zero);
    lemma_count_is_multiplicity(votes1, Ternary::Positive);
    lemma_count_is_multiplicity(votes2, Ternary::Negative);
    lemma_count_is_multiplicity(votes2, Ternary::Zero);
    lemma_count_is_multiplicity(votes2, Ternary::Positive);
}

} // verus!
