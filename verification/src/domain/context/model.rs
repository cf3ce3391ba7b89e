//! The election as mathematics: the state of a count and what one round
//! makes of it.
use crate::domain::candidate::CandidateView;
use crate::domain::candidate::compare_histories;
use crate::domain::candidate::HistoryOrder;
use crate::domain::restriction::RestrictionView;
use crate::domain::vote::FULL_STRENGTH;
use crate::domain::vote::PreferenceView;
use crate::domain::vote::scaled;
use crate::domain::vote::VoteView;
use vstd::prelude::*;

verus! {

/// A place in a list as a number without bounds.
pub open spec fn place(o: Option<usize>) -> Option<int> {
    match o {
        Some(i) => Some(i as int),
        None => None,
    }
}

/// The place of the candidate with the given id among `ids`.
pub open spec fn index_of(ids: Seq<usize>, id: usize) -> Option<int> {
    ids.index_of_first(id)
}

/// The id belongs to a candidate that is still in the count.
pub open spec fn is_live_id(ids: Seq<usize>, candidates: Seq<CandidateView>, id: usize) -> bool {
    match index_of(ids, id) {
        Some(i) => !candidates[i].eliminated,
        None => false,
    }
}

/// Some candidate is still in the count.
pub open spec fn has_live(candidates: Seq<CandidateView>) -> bool {
    exists|i: int| 0 <= i < candidates.len() && !(#[trigger] candidates[i]).eliminated
}

/// How many of the first `n` candidates are still in the count.
pub open spec fn live_count(candidates: Seq<CandidateView>, n: int) -> nat
    decreases n,
{
    if n <= 0 {
        0
    } else {
        live_count(candidates, n - 1) + if candidates[n - 1].eliminated {
            0nat
        } else {
            1nat
        }
    }
}

/// The first place at or behind `from` at which the queue `q` names a
/// candidate that is still in the count; the length of `q` if there is none.
pub open spec fn first_live_from(
    ids: Seq<usize>,
    candidates: Seq<CandidateView>,
    q: Seq<PreferenceView>,
    from: int,
) -> int
    decreases q.len() - from,
{
    if from < 0 || from >= q.len() {
        q.len() as int
    } else if is_live_id(ids, candidates, q[from].candidate) {
        from
    } else {
        first_live_from(ids, candidates, q, from + 1)
    }
}

/// The ballot without the leading preferences that name candidates no
/// longer in the count.
pub open spec fn cleaned_vote(
    ids: Seq<usize>,
    candidates: Seq<CandidateView>,
    v: VoteView,
) -> VoteView {
    VoteView {
        strength: v.strength,
        queue: v.queue.skip(first_live_from(ids, candidates, v.queue, 0)),
    }
}

/// The place of the candidate that the ballot names first.
pub open spec fn target_of(ids: Seq<usize>, v: VoteView) -> Option<int> {
    match v.top() {
        Some(id) => index_of(ids, id),
        None => None,
    }
}

/// The bucket of the candidate at `c` after the first `n` ballots: the
/// places of those ballots that name it first, in rising order.
pub open spec fn bucket_of(ids: Seq<usize>, votes: Seq<VoteView>, c: int, n: int) -> Seq<usize>
    decreases n,
{
    if n <= 0 {
        Seq::empty()
    } else if target_of(ids, votes[n - 1]) == Some(c) {
        bucket_of(ids, votes, c, n - 1).push((n - 1) as usize)
    } else {
        bucket_of(ids, votes, c, n - 1)
    }
}

/// The strength of the ballots at the listed places, added up.
pub open spec fn listed_strength(votes: Seq<VoteView>, listed: Seq<usize>) -> nat
    decreases listed.len(),
{
    if listed.len() == 0 {
        0
    } else {
        listed_strength(votes, listed.drop_last()) + votes[listed.last() as int].strength
    }
}

/// `buckets` holds for each candidate the places of the ballots that name
/// it first.
pub open spec fn buckets_match(
    ids: Seq<usize>,
    votes: Seq<VoteView>,
    buckets: Seq<Vec<usize>>,
) -> bool {
    &&& buckets.len() == ids.len()
    &&& forall|c: int|
        0 <= c < buckets.len() ==> (#[trigger] buckets[c])@ == bucket_of(
            ids,
            votes,
            c,
            votes.len() as int,
        )
}

/// The strength that the first `n` ballots lend to the candidate at `c`: the
/// sum of the strengths of those that name it first.
pub open spec fn weight_upto(ids: Seq<usize>, votes: Seq<VoteView>, c: int, n: int) -> nat
    decreases n,
{
    if n <= 0 {
        0
    } else {
        weight_upto(ids, votes, c, n - 1) + if target_of(ids, votes[n - 1]) == Some(c) {
            votes[n - 1].strength
        } else {
            0
        }
    }
}

/// The strength that the first `n` ballots lend to the first `c` candidates
/// together.
pub open spec fn total_weight(ids: Seq<usize>, votes: Seq<VoteView>, c: int, n: int) -> nat
    decreases c,
{
    if c <= 0 {
        0
    } else {
        total_weight(ids, votes, c - 1, n) + weight_upto(ids, votes, c - 1, n)
    }
}

/// The strength of those of the first `n` ballots that name one of the
/// first `c` candidates first.
pub open spec fn counted_strength(ids: Seq<usize>, votes: Seq<VoteView>, c: int, n: int) -> nat
    decreases n,
{
    if n <= 0 {
        0
    } else {
        counted_strength(ids, votes, c, n - 1) + if target_of(ids, votes[n - 1]) matches Some(t)
            && 0 <= t < c {
            votes[n - 1].strength
        } else {
            0
        }
    }
}

/// The tally of the candidate at `c`: the whole votes in the strength that
/// the ballots lend to it.
pub open spec fn tally_of(ids: Seq<usize>, votes: Seq<VoteView>, c: int) -> nat {
    weight_upto(ids, votes, c, votes.len() as int) / (FULL_STRENGTH as nat)
}

/// The tallies of the first `c` candidates together.
pub open spec fn tally_sum(ids: Seq<usize>, votes: Seq<VoteView>, c: int) -> nat
    decreases c,
{
    if c <= 0 {
        0
    } else {
        tally_sum(ids, votes, c - 1) + tally_of(ids, votes, c - 1)
    }
}

/// Whether the candidate at `i` takes the lead from the leader so far.
pub open spec fn takes_lead(
    candidates: Seq<CandidateView>,
    tallies: Seq<usize>,
    i: int,
    leader: Option<int>,
) -> bool {
    match leader {
        None => true,
        Some(p) => tallies[i] > tallies[p] || (tallies[i] == tallies[p] && compare_histories(
            candidates[i].history,
            candidates[p].history,
        ) == HistoryOrder::Higher),
    }
}

/// The leader among the first `n` candidates: of those in the count whose
/// tally reaches the quota the one with the highest tally. Between equal
/// tallies a later candidate takes the lead only with the higher history.
pub open spec fn leader_upto(
    candidates: Seq<CandidateView>,
    tallies: Seq<usize>,
    quota: usize,
    n: int,
) -> Option<int>
    decreases n,
{
    if n <= 0 {
        None
    } else {
        let before = leader_upto(candidates, tallies, quota, n - 1);
        if !candidates[n - 1].eliminated && tallies[n - 1] >= quota && takes_lead(
            candidates,
            tallies,
            n - 1,
            before,
        ) {
            Some(n - 1)
        } else {
            before
        }
    }
}

/// Whether the candidate at `i` falls behind the last candidate so far.
pub open spec fn takes_rear(
    candidates: Seq<CandidateView>,
    tallies: Seq<usize>,
    i: int,
    trailer: Option<int>,
) -> bool {
    match trailer {
        None => true,
        Some(p) => tallies[i] < tallies[p] || (tallies[i] == tallies[p] && compare_histories(
            candidates[i].history,
            candidates[p].history,
        ) == HistoryOrder::Lower),
    }
}

/// The last among the first `n` candidates: of those in the count whose
/// tally stays under the quota the one with the lowest tally. Between equal
/// tallies a later candidate falls behind only with the lower history.
pub open spec fn trailer_upto(
    candidates: Seq<CandidateView>,
    tallies: Seq<usize>,
    quota: usize,
    n: int,
) -> Option<int>
    decreases n,
{
    if n <= 0 {
        None
    } else {
        let before = trailer_upto(candidates, tallies, quota, n - 1);
        if !candidates[n - 1].eliminated && tallies[n - 1] < quota && takes_rear(
            candidates,
            tallies,
            n - 1,
            before,
        ) {
            Some(n - 1)
        } else {
            before
        }
    }
}

/// Name and tally of each of the first `n` candidates that is in the count.
pub open spec fn snapshot_upto(
    candidates: Seq<CandidateView>,
    names: Seq<Seq<char>>,
    tallies: Seq<usize>,
    n: int,
) -> Seq<(Seq<char>, usize)>
    decreases n,
{
    if n <= 0 {
        Seq::empty()
    } else if candidates[n - 1].eliminated {
        snapshot_upto(candidates, names, tallies, n - 1)
    } else {
        snapshot_upto(candidates, names, tallies, n - 1).push((names[n - 1], tallies[n - 1]))
    }
}

/// The first member at or behind place `j` of the list that is a candidate
/// still in the count, by its place among the candidates.
pub open spec fn first_live_member_from(
    ids: Seq<usize>,
    candidates: Seq<CandidateView>,
    members: Seq<usize>,
    j: int,
) -> Option<int>
    decreases members.len() - j,
{
    if j < 0 || j >= members.len() {
        None
    } else if is_live_id(ids, candidates, members[j]) {
        index_of(ids, members[j])
    } else {
        first_live_member_from(ids, candidates, members, j + 1)
    }
}

/// What one round of the count reports.
pub enum RoundResultView {
    /// A candidate was elected: its name, its tally, and name and tally of
    /// every candidate that was in the count in this round.
    CandidateSucceeded(Seq<char>, usize, Seq<(Seq<char>, usize)>),
    /// The last candidate was dropped: its name, and name and tally of every
    /// candidate that was in the count in this round.
    CandidateEliminated(Seq<char>, Seq<(Seq<char>, usize)>),
    /// A candidate was dropped because its group may elect no more: its
    /// name and the name of the group.
    CandidateEliminatedByRestriction(Seq<char>, Seq<char>),
}

/// The state of a count between two rounds.
#[verifier::ext_equal]
pub struct ElectionView {
    /// The id of each candidate, in the order in which they were first seen.
    pub ids: Seq<usize>,
    pub candidates: Seq<CandidateView>,
    pub names: Seq<Seq<char>>,
    /// The id of each voter, in the order in which they were first seen.
    pub voters: Seq<usize>,
    pub votes: Seq<VoteView>,
    pub restrictions: Seq<RestrictionView>,
    pub seats_remaining: usize,
    pub quota: usize,
    /// The group that may elect no more and whose members are being dropped.
    pub pending: Option<usize>,
}

impl ElectionView {
    /// The parts of the state fit together, and a pending group is one
    /// that may elect no more.
    pub open spec fn wf(self) -> bool {
        &&& self.ids.len() == self.candidates.len()
        &&& self.ids.len() == self.names.len()
        &&& self.ids.no_duplicates()
        &&& self.voters.len() == self.votes.len()
        &&& self.voters.no_duplicates()
        &&& self.votes.len() <= usize::MAX
        &&& self.ids.len() <= usize::MAX
        &&& self.restrictions.len() <= usize::MAX
        &&& forall|b: int| 0 <= b < self.votes.len() ==> (#[trigger] self.votes[b]).wf()
        &&& forall|i: int|
            0 <= i < self.candidates.len() ==> (#[trigger] self.candidates[i]).index == i
        &&& forall|i: int|
            0 <= i < self.candidates.len() ==> ((#[trigger] self.candidates[i]).group matches Some(
                g,
            ) ==> g < self.restrictions.len())
        &&& self.pending matches Some(g) ==> g < self.restrictions.len()
            && self.restrictions[g as int].limit == 0
    }

    /// A member of the group at `g` is in the count.
    pub open spec fn has_live_member(self, g: int) -> bool {
        first_live_member_from(self.ids, self.candidates, self.restrictions[g].members, 0) is Some
    }

    /// Every group that may elect no more and has a member in the count is
    /// the pending group.
    pub open spec fn exhausted_groups_pending(self) -> bool {
        forall|g: int|
            0 <= g < self.restrictions.len() && (#[trigger] self.restrictions[g]).limit == 0
                && self.has_live_member(g) ==> self.pending == Some(g as usize)
    }

    /// The candidate that is dropped next because its group may elect no
    /// more: the first member of the pending group that is in the count.
    pub open spec fn sweep_target(self) -> Option<int> {
        match self.pending {
            Some(g) => first_live_member_from(
                self.ids,
                self.candidates,
                self.restrictions[g as int].members,
                0,
            ),
            None => None,
        }
    }

    /// The state with the candidate at `c` out of the count.
    pub open spec fn without(self, c: int) -> ElectionView {
        ElectionView {
            candidates: self.candidates.update(
                c,
                CandidateView { eliminated: true, ..self.candidates[c] },
            ),
            ..self
        }
    }

    /// The state after the candidate at `c` was dropped for its group: every
    /// ballot that named it first has let go of it, and the group stays
    /// pending as long as another member is in the count.
    pub open spec fn after_sweep(self, c: int) -> ElectionView {
        let dropped = self.without(c);
        ElectionView {
            votes: Seq::new(
                self.votes.len(),
                |b: int|
                    if self.votes[b].top() == Some(self.ids[c]) {
                        self.votes[b].popped()
                    } else {
                        self.votes[b]
                    },
            ),
            pending: if dropped.sweep_target() is Some {
                self.pending
            } else {
                None
            },
            ..dropped
        }
    }

    /// The state with no group pending.
    pub open spec fn settled(self) -> ElectionView {
        ElectionView { pending: None, ..self }
    }

    /// The state in which every ballot has let go of its leading preferences
    /// for candidates no longer in the count.
    pub open spec fn cleaned(self) -> ElectionView {
        ElectionView {
            votes: Seq::new(
                self.votes.len(),
                |b: int| cleaned_vote(self.ids, self.candidates, self.votes[b]),
            ),
            ..self
        }
    }

    /// The tally of every candidate.
    pub open spec fn tallies(self) -> Seq<usize> {
        Seq::new(self.candidates.len(), |c: int| tally_of(self.ids, self.votes, c) as usize)
    }

    /// The state in which every candidate in the count has its tally of this
    /// round on record.
    pub open spec fn recorded(self, tallies: Seq<usize>) -> ElectionView {
        ElectionView {
            candidates: Seq::new(
                self.candidates.len(),
                |i: int|
                    if self.candidates[i].eliminated {
                        self.candidates[i]
                    } else {
                        CandidateView {
                            history: self.candidates[i].history.push(tallies[i]),
                            ..self.candidates[i]
                        }
                    },
            ),
            ..self
        }
    }

    /// The candidate that reaches the quota with the highest tally.
    pub open spec fn leader(self, tallies: Seq<usize>) -> Option<int> {
        leader_upto(self.candidates, tallies, self.quota, self.candidates.len() as int)
    }

    /// The candidate that stays under the quota with the lowest tally.
    pub open spec fn trailer(self, tallies: Seq<usize>) -> Option<int> {
        trailer_upto(self.candidates, tallies, self.quota, self.candidates.len() as int)
    }

    /// Name and tally of every candidate in the count.
    pub open spec fn snapshot(self, tallies: Seq<usize>) -> Seq<(Seq<char>, usize)> {
        snapshot_upto(self.candidates, self.names, tallies, self.candidates.len() as int)
    }

    /// The restrictions after the candidate at `w` was elected.
    pub open spec fn restrictions_after(self, w: int) -> Seq<RestrictionView> {
        match self.candidates[w].group {
            Some(g) => self.restrictions.update(
                g as int,
                self.restrictions[g as int].decremented(),
            ),
            None => self.restrictions,
        }
    }

    /// The group that the election of the candidate at `w` has exhausted.
    pub open spec fn exhausted_by(self, w: int) -> Option<usize> {
        match self.candidates[w].group {
            Some(g) => if self.restrictions_after(w)[g as int].limit == 0 {
                Some(g)
            } else {
                None
            },
            None => None,
        }
    }

    /// The state after the candidate at `w` was elected with the given
    /// tally: each ballot that named it first has let go of it and keeps the
    /// share of its strength that the quota did not use up, a seat is taken,
    /// and the group of the candidate may elect one less.
    pub open spec fn elect(self, w: int, tally: usize) -> ElectionView {
        ElectionView {
            votes: Seq::new(
                self.votes.len(),
                |b: int|
                    if target_of(self.ids, self.votes[b]) == Some(w) {
                        VoteView {
                            strength: scaled(
                                self.votes[b].strength,
                                (tally - self.quota) as nat,
                                tally as nat,
                            ),
                            queue: self.votes[b].queue.skip(1),
                        }
                    } else {
                        self.votes[b]
                    },
            ),
            restrictions: self.restrictions_after(w),
            seats_remaining: (self.seats_remaining - 1) as usize,
            pending: self.exhausted_by(w),
            ..self.without(w)
        }
    }

    /// The state after the candidate at `l` was dropped as the last one:
    /// each ballot that named it first has let go of it.
    pub open spec fn drop_last_placed(self, l: int) -> ElectionView {
        ElectionView {
            votes: Seq::new(
                self.votes.len(),
                |b: int|
                    if target_of(self.ids, self.votes[b]) == Some(l) {
                        self.votes[b].popped()
                    } else {
                        self.votes[b]
                    },
            ),
            pending: None,
            ..self.without(l)
        }
    }

    /// An ordinary round: the ballots are cleaned and counted, the tallies
    /// go on record, and the leader is elected or else the last is dropped.
    pub open spec fn ordinary_round(self) -> (ElectionView, Option<RoundResultView>) {
        let cleaned = self.cleaned();
        let tallies = cleaned.tallies();
        let counted = cleaned.recorded(tallies);
        let snapshot = counted.snapshot(tallies);
        match counted.leader(tallies) {
            Some(w) => (
                counted.elect(w, tallies[w]),
                Some(RoundResultView::CandidateSucceeded(counted.names[w], tallies[w], snapshot)),
            ),
            None => match counted.trailer(tallies) {
                Some(l) => (
                    counted.drop_last_placed(l),
                    Some(RoundResultView::CandidateEliminated(counted.names[l], snapshot)),
                ),
                None => (counted, None),
            },
        }
    }

    /// One step of the count: the state that it leaves and what it reports.
    ///
    /// Nothing happens once no seat is left or no candidate is in the
    /// count. A pending group loses its next member, and nothing else
    /// happens in that step. Otherwise an ordinary round takes place.
    pub open spec fn step(self) -> (ElectionView, Option<RoundResultView>) {
        if self.seats_remaining == 0 {
            (self, None)
        } else {
            match self.sweep_target() {
                Some(c) => (
                    self.after_sweep(c),
                    Some(
                        RoundResultView::CandidateEliminatedByRestriction(
                            self.names[c],
                            self.restrictions[self.pending->0 as int].name,
                        ),
                    ),
                ),
                None => if has_live(self.candidates) {
                    self.settled().ordinary_round()
                } else {
                    (self, None)
                },
            }
        }
    }

    /// The state after `n` steps.
    pub open spec fn after(self, n: nat) -> ElectionView
        decreases n,
    {
        if n == 0 {
            self
        } else {
            self.after((n - 1) as nat).step().0
        }
    }

    /// How many of the first `n` steps elect a candidate.
    pub open spec fn wins(self, n: nat) -> nat
        decreases n,
    {
        if n == 0 {
            0
        } else {
            self.wins((n - 1) as nat) + if self.after((n - 1) as nat).step().1 matches Some(
                RoundResultView::CandidateSucceeded(_, _, _),
            ) {
                1nat
            } else {
                0nat
            }
        }
    }

    /// How many of the first `n` steps report something.
    pub open spec fn reported(self, n: nat) -> nat
        decreases n,
    {
        if n == 0 {
            0
        } else {
            self.reported((n - 1) as nat) + if self.after((n - 1) as nat).step().1 is Some {
                1nat
            } else {
                0nat
            }
        }
    }

    /// What the first `n` steps report, in their order.
    pub open spec fn reports(self, n: nat) -> Seq<Option<RoundResultView>>
        decreases n,
    {
        if n == 0 {
            Seq::empty()
        } else {
            self.reports((n - 1) as nat).push(self.after((n - 1) as nat).step().1)
        }
    }
}

} // verus!
