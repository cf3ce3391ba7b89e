//! Candidates: what the count knows of each option that voters could rank.
use std::cmp::Ordering;
use vstd::prelude::*;
use vstd::std_specs::cmp::PartialEqSpecImpl;
use vstd::std_specs::cmp::PartialOrdSpec;
use vstd::std_specs::cmp::PartialOrdSpecImpl;

verus! {

/// How the tallies that two candidates received in earlier rounds compare.
#[derive(Debug, Clone, Copy, PartialEq, Eq, Structural)]
pub enum HistoryOrder {
    /// In the first round in which the two differ, the first received less.
    Lower,
    /// In the first round in which the two differ, the first received more.
    Higher,
    /// The two never differ as far as both histories reach.
    Incomparable,
}

/// Compares `a` and `b` position by position from `from` on: the first
/// position in which they differ decides, and none is left to decide where
/// one of them ends first.
pub open spec fn compare_histories_from(a: Seq<usize>, b: Seq<usize>, from: int) -> HistoryOrder
    decreases a.len() - from,
{
    if from < 0 || from >= a.len() || from >= b.len() {
        HistoryOrder::Incomparable
    } else if a[from] < b[from] {
        HistoryOrder::Lower
    } else if a[from] > b[from] {
        HistoryOrder::Higher
    } else {
        compare_histories_from(a, b, from + 1)
    }
}

/// Compares two histories by the first position in which they differ.
pub open spec fn compare_histories(a: Seq<usize>, b: Seq<usize>) -> HistoryOrder {
    compare_histories_from(a, b, 0)
}

/// Where two histories compare as lower or higher, there is a first
/// position in which they differ, and it decides.
pub proof fn law_history_order_decided(a: Seq<usize>, b: Seq<usize>, from: int) -> (k: int)
    requires
        0 <= from,
        compare_histories_from(a, b, from) != HistoryOrder::Incomparable,
    ensures
        from <= k < a.len(),
        k < b.len(),
        forall|i: int| from <= i < k ==> a[i] == b[i],
        a[k] != b[k],
        compare_histories_from(a, b, from) == if a[k] < b[k] {
            HistoryOrder::Lower
        } else {
            HistoryOrder::Higher
        },
    decreases a.len() - from,
{
    if a[from] == b[from] {
        law_history_order_decided(a, b, from + 1)
    } else {
        from
    }
}

/// Two histories are incomparable exactly when they agree as far as both
/// reach: equal histories, and a history and its beginning, are
/// incomparable.
pub proof fn law_history_order_undecided(a: Seq<usize>, b: Seq<usize>, from: int)
    requires
        0 <= from,
    ensures
        compare_histories_from(a, b, from) == HistoryOrder::Incomparable <==> forall|i: int|
            from <= i < a.len() && i < b.len() ==> a[i] == b[i],
    decreases a.len() - from,
{
    if from < a.len() && from < b.len() {
        law_history_order_undecided(a, b, from + 1);
        if a[from] != b[from] {
            assert(!(forall|i: int| from <= i < a.len() && i < b.len() ==> a[i] == b[i]));
        }
    }
}

/// The one history is lower than the other exactly when the other is
/// higher than the one.
pub proof fn law_history_order_mirrors(a: Seq<usize>, b: Seq<usize>, from: int)
    requires
        0 <= from,
    ensures
        compare_histories_from(a, b, from) == HistoryOrder::Lower <==> compare_histories_from(
            b,
            a,
            from,
        ) == HistoryOrder::Higher,
        compare_histories_from(a, b, from) == HistoryOrder::Incomparable
            <==> compare_histories_from(b, a, from) == HistoryOrder::Incomparable,
    decreases a.len() - from,
{
    if from < a.len() && from < b.len() && a[from] == b[from] {
        law_history_order_mirrors(a, b, from + 1);
    }
}

/// One option that voters could rank.
pub struct Candidate {
    interned_index: usize,
    eliminated: bool,
    group: Option<usize>,
    previous_vote_powers: Vec<usize>,
}

/// The mathematical content of a [`Candidate`].
#[verifier::ext_equal]
pub struct CandidateView {
    /// The place of the candidate in the list of all candidates.
    pub index: usize,
    /// Whether the candidate has left the count, elected or not.
    pub eliminated: bool,
    /// The restriction that the candidate falls under, if any.
    pub group: Option<usize>,
    /// The tally of each round in which the candidate was counted.
    pub history: Seq<usize>,
}

impl View for Candidate {
    type V = CandidateView;

    closed spec fn view(&self) -> CandidateView {
        CandidateView {
            index: self.interned_index,
            eliminated: self.eliminated,
            group: self.group,
            history: self.previous_vote_powers@,
        }
    }
}

impl Candidate {
    pub fn new(interned_index: usize) -> (r: Self)
        ensures
            r@ == (CandidateView {
                index: interned_index,
                eliminated: false,
                group: None,
                history: Seq::empty(),
            }),
    {
        Candidate {
            interned_index,
            eliminated: false,
            group: None,
            previous_vote_powers: Vec::new(),
        }
    }

    /// Takes the candidate out of the count. Doing so again changes nothing.
    pub fn eliminate(&mut self)
        ensures
            final(self)@ == (CandidateView { eliminated: true, ..old(self)@ }),
    {
        self.eliminated = true;
    }

    pub fn interned_id(&self) -> (r: usize)
        ensures
            r == self@.index,
    {
        self.interned_index
    }

    pub fn is_eliminated(&self) -> (r: bool)
        ensures
            r == self@.eliminated,
    {
        self.eliminated
    }

    /// Puts the candidate under a restriction, unless it is under one
    /// already.
    pub fn insert_group(&mut self, group_id: usize) -> (r: Result<(), &'static str>)
        ensures
            r is Err <==> old(self)@.group is Some,
            r is Ok ==> final(self)@ == (CandidateView { group: Some(group_id), ..old(self)@ }),
            r is Err ==> final(self)@ == old(self)@ && r->Err_0@ == "Group already assigned"@,
    {
        if self.group.is_some() {
            return Err("Group already assigned");
        }
        self.group = Some(group_id);
        Ok(())
    }

    pub fn group(&self) -> (r: Option<usize>)
        ensures
            r == self@.group,
    {
        self.group
    }

    /// Records the tally of one more round.
    pub fn add_prev_voting_power(&mut self, power: usize)
        ensures
            final(self)@ == (CandidateView {
                history: old(self)@.history.push(power),
                ..old(self)@
            }),
    {
        self.previous_vote_powers.push(power);
    }

    /// The tallies recorded so far, oldest first.
    pub fn previous_vote_powers(&self) -> (r: &Vec<usize>)
        ensures
            r@ == self@.history,
    {
        &self.previous_vote_powers
    }

    /// Compares the recorded tallies of two candidates round by round.
    pub fn compare_history(&self, other: &Candidate) -> (r: HistoryOrder)
        ensures
            r == compare_histories(self@.history, other@.history),
    {
        let n = self.previous_vote_powers.len();
        let m = other.previous_vote_powers.len();
        let mut i: usize = 0;
        while i < n && i < m
            invariant
                i <= n,
                i <= m,
                n == self@.history.len(),
                m == other@.history.len(),
                compare_histories(self@.history, other@.history) == compare_histories_from(
                    self@.history,
                    other@.history,
                    i as int,
                ),
            decreases n - i,
        {
            let a = self.previous_vote_powers[i];
            let b = other.previous_vote_powers[i];
            if a < b {
                return HistoryOrder::Lower;
            }
            if a > b {
                return HistoryOrder::Higher;
            }
            i += 1;
        }
        HistoryOrder::Incomparable
    }
}

/// Two candidates are equal when they hold the same place in the list of
/// candidates.
impl PartialEq for Candidate {
    fn eq(&self, other: &Self) -> (r: bool) {
        self.interned_index == other.interned_index
    }
}

impl PartialEqSpecImpl for Candidate {
    open spec fn obeys_eq_spec() -> bool {
        true
    }

    open spec fn eq_spec(&self, other: &Self) -> bool {
        self@.index == other@.index
    }
}

/// A candidate is below another when its history is lower, and above it
/// when its history is higher. Candidates whose histories do not decide are
/// not ordered at all: no two candidates compare as equal, not even a
/// candidate and itself.
impl PartialOrd for Candidate {
    fn partial_cmp(&self, other: &Self) -> (r: Option<Ordering>) {
        match self.compare_history(other) {
            HistoryOrder::Lower => Some(Ordering::Less),
            HistoryOrder::Higher => Some(Ordering::Greater),
            HistoryOrder::Incomparable => None,
        }
    }
}

impl PartialOrdSpecImpl for Candidate {
    open spec fn obeys_partial_cmp_spec() -> bool {
        true
    }

    open spec fn partial_cmp_spec(&self, other: &Self) -> Option<Ordering> {
        match compare_histories(self@.history, other@.history) {
            HistoryOrder::Lower => Some(Ordering::Less),
            HistoryOrder::Higher => Some(Ordering::Greater),
            HistoryOrder::Incomparable => None,
        }
    }
}

/// The order of candidates is three-way: less, greater or none. It is none
/// exactly when the histories agree as far as both reach, and never equal.
pub proof fn law_candidates_never_compare_equal(a: Candidate, b: Candidate)
    ensures
        PartialOrdSpec::partial_cmp_spec(&a, &b) != Some(Ordering::Equal),
        PartialOrdSpec::partial_cmp_spec(&a, &b) is None <==> forall|i: int|
            0 <= i < a@.history.len() && i < b@.history.len() ==> a@.history[i] == b@.history[i],
        PartialOrdSpec::partial_cmp_spec(&a, &b) == Some(Ordering::Less)
            <==> PartialOrdSpec::partial_cmp_spec(&b, &a) == Some(Ordering::Greater),
{
    law_history_order_undecided(a@.history, b@.history, 0);
    law_history_order_mirrors(a@.history, b@.history, 0);
}

} // verus!
