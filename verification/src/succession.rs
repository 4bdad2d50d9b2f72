//! The ordered line of agents that would take over from the captain.

use vstd::prelude::*;

verus! {

/// The identifiers that a list of names stands for.
pub open spec fn names_view(v: Seq<String>) -> Seq<Seq<char>> {
    v.map_values(|s: String| s@)
}

/// The line after `agent_id` is added: an agent already in line keeps its
/// place, a new one goes to the back.
pub open spec fn with_successor(line: Seq<Seq<char>>, agent_id: Seq<char>) -> Seq<Seq<char>> {
    if line.contains(agent_id) {
        line
    } else {
        line.push(agent_id)
    }
}

/// `after` is `before` with `agent_id` taken out of it, the others keeping
/// their order; when `agent_id` is not in line, nothing changes.
pub open spec fn removed_from_line(before: Seq<Seq<char>>, after: Seq<Seq<char>>, agent_id: Seq<char>) -> bool {
    if before.contains(agent_id) {
        exists|i: int| 0 <= i < before.len() && before[i] == agent_id && after == before.remove(i)
    } else {
        after == before
    }
}

/// Handles captain handoff when a room changes or captain becomes unavailable.
#[derive(Debug)]
pub struct SuccessionPlan {
    /// Ordered list of successors (first = highest priority).
    successors: Vec<String>,
}

impl SuccessionPlan {
    /// The line of succession, first in line first.
    pub closed spec fn view(&self) -> Seq<Seq<char>> {
        names_view(self.successors@)
    }

    /// Nobody stands in the line twice.
    #[verifier::type_invariant]
    pub open spec fn well_formed(&self) -> bool {
        self@.no_duplicates()
    }

    pub fn new() -> (r: Self)
        ensures
            r@ == Seq::<Seq<char>>::empty(),
    {
        let r = Self { successors: Vec::new() };
        assert(r@ =~= Seq::<Seq<char>>::empty());
        r
    }

    /// Moves the line out, leaving it empty.
    fn take_line(&mut self) -> (r: Vec<String>)
        ensures
            r@ == old(self).successors@,
            final(self).successors@ == Seq::<String>::empty(),
    {
        let mut line = Vec::new();
        std::mem::swap(&mut line, &mut self.successors);
        line
    }

    /// Position of `agent_id` in the line, if it stands there.
    fn position(&self, agent_id: &str) -> (r: Option<usize>)
        ensures
            match r {
                Some(i) => i < self@.len() && self@[i as int] == agent_id@,
                None => !self@.contains(agent_id@),
            },
    {
        let k = agent_id.to_owned();
        let n = self.successors.len();
        for i in 0..n
            invariant
                n == self@.len(),
                k@ == agent_id@,
                forall|j: int| 0 <= j < i ==> self@[j] != agent_id@,
        {
            if self.successors[i] == k {
                return Some(i);
            }
        }
        None
    }

    /// Add a successor to the plan; an agent already in line keeps its place.
    pub fn add_successor(&mut self, agent_id: &str)
        ensures
            final(self)@ == with_successor(old(self)@, agent_id@),
            old(self)@.contains(agent_id@) ==> final(self)@ == old(self)@,
            !old(self)@.contains(agent_id@) ==> final(self)@ == old(self)@.push(agent_id@),
    {
        proof {
            use_type_invariant(&*self);
        }
        if self.position(agent_id).is_none() {
            let mut line = self.take_line();
            line.push(agent_id.to_owned());
            proof {
                assert(names_view(line@) =~= old(self)@.push(agent_id@));
            }
            self.successors = line;
        }
    }

    /// Add a successor at place `index` of the line (0 is the heir's place);
    /// an agent already in line keeps its place.
    pub fn add_successor_at(&mut self, agent_id: &str, index: usize)
        requires
            index <= old(self)@.len(),
        ensures
            final(self)@ == if old(self)@.contains(agent_id@) {
                old(self)@
            } else {
                old(self)@.insert(index as int, agent_id@)
            },
    {
        proof {
            use_type_invariant(&*self);
        }
        if self.position(agent_id).is_none() {
            let mut line = self.take_line();
            line.insert(index, agent_id.to_owned());
            proof {
                assert(names_view(line@) =~= old(self)@.insert(index as int, agent_id@));
                assert forall|a: int, b: int|
                    0 <= a < line@.len() && 0 <= b < line@.len() && a != b implies names_view(line@)[a]
                    != names_view(line@)[b] by {
                    let o = old(self)@;
                    let ia: int = if a < index { a } else if a == index { -1 } else { a - 1 };
                    let ib: int = if b < index { b } else if b == index { -1 } else { b - 1 };
                    if ia >= 0 && ib >= 0 {
                        assert(names_view(line@)[a] == o[ia]);
                        assert(names_view(line@)[b] == o[ib]);
                    } else if ia >= 0 {
                        assert(names_view(line@)[a] == o[ia]);
                        assert(o.contains(o[ia]));
                    } else if ib >= 0 {
                        assert(names_view(line@)[b] == o[ib]);
                        assert(o.contains(o[ib]));
                    }
                }
            }
            self.successors = line;
        }
    }

    /// Get the current heir (next in line).
    pub fn heir(&self) -> (r: Option<&str>)
        ensures
            match r {
                Some(h) => self@.len() > 0 && h@ == self@[0],
                None => self@.len() == 0,
            },
    {
        if self.successors.len() == 0 {
            None
        } else {
            Some(self.successors[0].as_str())
        }
    }

    /// Remove the current heir (e.g., they became captain) and promote the next.
    pub fn promote_next(&mut self) -> (r: Option<String>)
        ensures
            match r {
                Some(h) => old(self)@.len() > 0 && h@ == old(self)@[0] && final(self)@ == old(self)@.drop_first(),
                None => old(self)@.len() == 0 && final(self)@ == old(self)@,
            },
    {
        proof {
            use_type_invariant(&*self);
        }
        if self.successors.len() == 0 {
            None
        } else {
            let mut line = self.take_line();
            let h = line.remove(0);
            proof {
                assert(names_view(line@) =~= old(self)@.drop_first());
            }
            self.successors = line;
            Some(h)
        }
    }

    /// Remove an agent from the succession line, keeping the order of the others.
    pub fn remove(&mut self, agent_id: &str) -> (r: bool)
        ensures
            r == old(self)@.contains(agent_id@),
            removed_from_line(old(self)@, final(self)@, agent_id@),
    {
        proof {
            use_type_invariant(&*self);
        }
        match self.position(agent_id) {
            Some(i) => {
                let mut line = self.take_line();
                line.remove(i);
                proof {
                    assert(names_view(line@) =~= old(self)@.remove(i as int));
                }
                self.successors = line;
                true
            },
            None => false,
        }
    }

    /// Number of successors in line.
    pub fn depth(&self) -> (r: usize)
        ensures
            r == self@.len(),
    {
        self.successors.len()
    }

    /// Full succession line.
    pub fn line(&self) -> (r: &[String])
        ensures
            names_view(r@) == self@,
    {
        self.successors.as_slice()
    }
}

impl Clone for SuccessionPlan {
    /// A copy of the same line.
    fn clone(&self) -> (r: Self)
        ensures
            r@ == self@,
    {
        proof {
            use_type_invariant(self);
        }
        let n = self.successors.len();
        let mut line: Vec<String> = Vec::new();
        for i in 0..n
            invariant
                n == self@.len(),
                names_view(line@) == self@.take(i as int),
        {
            let name = self.successors[i].clone();
            assert(name == self.successors@[i as int]);
            let ghost before = line@;
            line.push(name);
            proof {
                assert(self@[i as int] == self.successors@[i as int]@);
                assert(line@ == before.push(name));
                assert(names_view(before.push(name)) =~= names_view(before).push(name@));
                assert(self@.take(i + 1) =~= self@.take(i as int).push(self@[i as int]));
                assert(names_view(line@) =~= self@.take(i + 1));
            }
        }
        proof {
            assert(self@.take(n as int) =~= self@);
        }
        SuccessionPlan { successors: line }
    }
}

/// Adding a successor twice is adding it once.
pub proof fn lemma_add_successor_idempotent(line: Seq<Seq<char>>, agent_id: Seq<char>)
    ensures
        with_successor(with_successor(line, agent_id), agent_id) == with_successor(line, agent_id),
{
    if !line.contains(agent_id) {
        assert(line.push(agent_id)[line.len() as int] == agent_id);
    }
}

/// Removing an agent that was just added to the line gives back the line as
/// it was.
pub proof fn lemma_remove_undoes_add(line: Seq<Seq<char>>, after: Seq<Seq<char>>, agent_id: Seq<char>)
    requires
        !line.contains(agent_id),
        removed_from_line(with_successor(line, agent_id), after, agent_id),
    ensures
        after == line,
{
    let added = line.push(agent_id);
    assert(added[line.len() as int] == agent_id);
    let i = choose|i: int| 0 <= i < added.len() && added[i] == agent_id && after == added.remove(i);
    if i < line.len() {
        assert(line[i] == agent_id);
    }
    assert(added.remove(i) =~= line);
}

/// Removing an agent that was just put into the line, at any place, gives
/// back the line as it was.
pub proof fn lemma_remove_undoes_insert(
    line: Seq<Seq<char>>,
    k: int,
    after: Seq<Seq<char>>,
    agent_id: Seq<char>,
)
    requires
        !line.contains(agent_id),
        0 <= k <= line.len(),
        removed_from_line(line.insert(k, agent_id), after, agent_id),
    ensures
        after == line,
{
    let added = line.insert(k, agent_id);
    assert(added[k] == agent_id);
    let i = choose|i: int| 0 <= i < added.len() && added[i] == agent_id && after == added.remove(i);
    if i < k {
        assert(line[i] == agent_id);
    } else if i > k {
        assert(added[i] == line[i - 1]);
        assert(line[i - 1] == agent_id);
    }
    assert(added.remove(k) =~= line);
}

/// Adding an agent that already stands in line changes nothing, so the heir
/// stays the heir; a new agent goes to the back, behind everyone in line.
pub proof fn lemma_add_successor_keeps_present_line(line: Seq<Seq<char>>, agent_id: Seq<char>)
    ensures
        line.contains(agent_id) ==> with_successor(line, agent_id) == line,
        line.len() > 0 ==> with_successor(line, agent_id)[0] == line[0],
        !line.contains(agent_id) ==> with_successor(line, agent_id) == line.push(agent_id),
        with_successor(line, agent_id).contains(agent_id),
{
    if !line.contains(agent_id) {
        assert(line.push(agent_id)[line.len() as int] == agent_id);
    }
}

/// Removing an agent from a line without repeats takes out that agent and no
/// other: the line shrinks by one exactly when the agent stood in it, every
/// other agent stays in line, and an heir other than the removed agent stays
/// the heir.
pub proof fn lemma_remove_takes_out_only_agent(
    before: Seq<Seq<char>>,
    after: Seq<Seq<char>>,
    agent_id: Seq<char>,
    other: Seq<char>,
)
    requires
        before.no_duplicates(),
        removed_from_line(before, after, agent_id),
    ensures
        !after.contains(agent_id),
        after.len() == before.len() - if before.contains(agent_id) { 1int } else { 0int },
        other != agent_id ==> (after.contains(other) <==> before.contains(other)),
        before.len() > 0 && before[0] != agent_id ==> after[0] == before[0],
{
    if before.contains(agent_id) {
        let i = choose|i: int| 0 <= i < before.len() && before[i] == agent_id && after == before.remove(i);
        if after.contains(agent_id) {
            let j = choose|j: int| 0 <= j < after.len() && after[j] == agent_id;
            let k = if j < i { j } else { j + 1 };
            assert(after[j] == before[k]);
            assert(before[k] == before[i]);
        }
        if other != agent_id {
            if before.contains(other) {
                let j = choose|j: int| 0 <= j < before.len() && before[j] == other;
                assert(j != i);
                let k = if j < i { j } else { j - 1 };
                assert(after[k] == other);
            }
            if after.contains(other) {
                let j = choose|j: int| 0 <= j < after.len() && after[j] == other;
                let k = if j < i { j } else { j + 1 };
                assert(before[k] == other);
            }
        }
        if before.len() > 0 && before[0] != agent_id {
            assert(i > 0);
            assert(after[0] == before[0]);
        }
    }
}

} // verus!
