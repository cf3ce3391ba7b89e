//! The counting engine and the builder that sets it up.
pub mod builder;
pub mod ids;
pub mod iter_helpers;
pub mod laws;
pub mod model;

pub use builder::ContextBuilder;

use crate::domain::candidate::Candidate;
use crate::domain::candidate::CandidateView;
use crate::domain::context::ids::IdTable;
use crate::domain::context::iter_helpers::WinnerLoserStruct;
use crate::domain::context::laws::law_count_ends_exactly_when;
use crate::domain::context::laws::lemma_someone_is_chosen;
use crate::domain::context::model::ElectionView;
use crate::domain::context::model::has_live;
use crate::domain::context::model::index_of;
use crate::domain::context::model::RoundResultView;
use crate::domain::restriction::Restriction;
use crate::domain::restriction::RestrictionView;
use crate::domain::vote::Vote;
use crate::domain::vote::VoteView;
use vstd::prelude::*;

verus! {

/// What each candidate of the list stands for.
pub open spec fn candidate_views(v: Seq<Candidate>) -> Seq<CandidateView> {
    Seq::new(v.len(), |i: int| v[i]@)
}

/// What each ballot of the list stands for.
pub open spec fn vote_views(v: Seq<Vote>) -> Seq<VoteView> {
    Seq::new(v.len(), |i: int| v[i]@)
}

/// What each restriction of the list stands for.
pub open spec fn restriction_views(v: Seq<Restriction>) -> Seq<RestrictionView> {
    Seq::new(v.len(), |i: int| v[i]@)
}

/// The characters of each name of the list.
pub open spec fn name_views(v: Seq<String>) -> Seq<Seq<char>> {
    Seq::new(v.len(), |i: int| v[i]@)
}

/// Name and tally of each entry of the list.
pub open spec fn tally_views(v: Seq<(String, usize)>) -> Seq<(Seq<char>, usize)> {
    Seq::new(v.len(), |i: int| (v[i].0@, v[i].1))
}

/// What one round of the count reports.
#[derive(Debug, Clone, PartialEq, Eq)]
pub enum RoundResult {
    /// A candidate was elected: its name, its tally, and name and tally of
    /// every candidate that was in the count in this round.
    CandidateSucceeded(String, usize, Vec<(String, usize)>),
    /// The last candidate was dropped: its name, and name and tally of every
    /// candidate that was in the count in this round.
    CandidateEliminated(String, Vec<(String, usize)>),
    /// A candidate was dropped because its group may elect no more: its
    /// name and the name of the group.
    CandidateEliminatedByRestriction(String, String),
}

impl View for RoundResult {
    type V = RoundResultView;

    open spec fn view(&self) -> RoundResultView {
        match *self {
            RoundResult::CandidateSucceeded(name, tally, snapshot) => {
                RoundResultView::CandidateSucceeded(name@, tally, tally_views(snapshot@))
            },
            RoundResult::CandidateEliminated(name, snapshot) => {
                RoundResultView::CandidateEliminated(name@, tally_views(snapshot@))
            },
            RoundResult::CandidateEliminatedByRestriction(name, group) => {
                RoundResultView::CandidateEliminatedByRestriction(name@, group@)
            },
        }
    }
}

/// What an optional report stands for.
pub open spec fn report_view(r: Option<RoundResult>) -> Option<RoundResultView> {
    match r {
        Some(result) => Some(result@),
        None => None,
    }
}

/// A count in progress. It owns the ballots, the candidates and the
/// restrictions, and moves on by one round with each call of `next`.
pub struct Context {
    candidate_ids: IdTable,
    candidates: Vec<Candidate>,
    candidate_names: Vec<String>,
    voter_ids: IdTable,
    votes: Vec<Vote>,
    restrictions: Vec<Restriction>,
    seats_remaining: usize,
    quota: usize,
    active_group_elimination: Option<usize>,
}

impl View for Context {
    type V = ElectionView;

    closed spec fn view(&self) -> ElectionView {
        ElectionView {
            ids: self.candidate_ids@,
            candidates: candidate_views(self.candidates@),
            names: name_views(self.candidate_names@),
            voters: self.voter_ids@,
            votes: vote_views(self.votes@),
            restrictions: restriction_views(self.restrictions@),
            seats_remaining: self.seats_remaining,
            quota: self.quota,
            pending: self.active_group_elimination,
        }
    }
}

impl Context {
    /// The places at hand for the ids of the candidates are right.
    pub closed spec fn indexed(&self) -> bool {
        self.candidate_ids.wf()
    }

    /// The invariant of a count; see [`ElectionView::wf`].
    pub open spec fn wf(&self) -> bool {
        self@.wf() && self.indexed()
    }

    /// The tally that elects a candidate. It is the same in every round.
    pub fn quota(&self) -> (r: usize)
        ensures
            r == self@.quota,
    {
        self.quota
    }

    /// The seats that are still to be filled.
    pub fn seats_remaining(&self) -> (r: usize)
        ensures
            r == self@.seats_remaining,
    {
        self.seats_remaining
    }

    /// The name of the candidate with the given id.
    pub fn get_name(&self, id: usize) -> (r: Option<String>)
        requires
            self.wf(),
        ensures
            match r {
                Some(name) => index_of(self@.ids, id) is Some && name@ == self@.names[index_of(
                    self@.ids,
                    id,
                )->0],
                None => index_of(self@.ids, id) is None,
            },
    {
        match self.candidate_ids.find(id) {
            Some(i) => {
                assert(self@.candidates[i as int].index == i);
                Some(self.candidate_names[self.candidates[i].interned_id()].clone())
            },
            None => None,
        }
    }

    /// Whether any candidate is still in the count.
    fn has_live_candidate(&self) -> (r: bool)
        ensures
            r == has_live(self@.candidates),
    {
        let n = self.candidates.len();
        let mut i: usize = 0;
        while i < n
            invariant
                i <= n,
                n == self@.candidates.len(),
                forall|k: int| 0 <= k < i ==> (#[trigger] self@.candidates[k]).eliminated,
            decreases n - i,
        {
            assert(self@.candidates[i as int] == self.candidates@[i as int]@);
            if !self.candidates[i].is_eliminated() {
                return true;
            }
            i += 1;
        }
        false
    }

    /// Moves the count on by one step and reports what happened, or `None`
    /// when the count is over: no seat is left, or no candidate is.
    ///
    /// A group that may elect no more loses its next member first, one with
    /// each call. Otherwise the ballots are counted, and the candidate that
    /// reaches the quota with the highest tally is elected, or else the one
    /// with the lowest tally is dropped. See [`ElectionView::step`].
    pub fn next(&mut self) -> (r: Option<RoundResult>)
        requires
            old(self).wf(),
        ensures
            final(self).wf(),
            final(self)@ == old(self)@.step().0,
            report_view(r) == old(self)@.step().1,
            r is None <==> old(self)@.seats_remaining == 0 || !has_live(old(self)@.candidates),
            r is None ==> final(self)@ == old(self)@,
            final(self)@.quota == old(self)@.quota,
    {
        proof {
            law_count_ends_exactly_when(self@);
        }
        if self.seats_remaining == 0 {
            return None;
        }
        if let Some((candidate_id, group_id)) = self.handle_restrictions() {
            assert(self@.names[candidate_id as int] == self.candidate_names@[candidate_id as int]@);
            assert(self@.restrictions[group_id as int] == self.restrictions@[group_id as int]@);
            let name = self.candidate_names[candidate_id].clone();
            let group = self.restrictions[group_id].group_name().to_owned();
            return Some(RoundResult::CandidateEliminatedByRestriction(name, group));
        }
        if !self.has_live_candidate() {
            return None;
        }
        self.active_group_elimination = None;
        assert(self@ =~= old(self)@.settled());
        let ghost live = choose|i: int|
            0 <= i < old(self)@.candidates.len() && !(#[trigger] old(self)@.candidates[i]).eliminated;
        let buckets = self.calculate_votes();
        let tallies = self.sum_buckets(&buckets);
        let WinnerLoserStruct {
            biggest_winner,
            biggest_winner_votes,
            biggest_loser,
            biggest_loser_votes: _,
        } = WinnerLoserStruct::calculate_and_set_voting_power(self, &tallies);
        match (biggest_winner, biggest_loser) {
            (Some(winner), _) => {
                assert(self@.names[winner as int] == self.candidate_names@[winner as int]@);
                let vote_tally = self.create_vote_map(&tallies);
                let name = self.candidate_names[winner].clone();
                self.elect(winner, biggest_winner_votes);
                Some(RoundResult::CandidateSucceeded(name, biggest_winner_votes, vote_tally))
            },
            (None, Some(loser)) => {
                assert(self@.names[loser as int] == self.candidate_names@[loser as int]@);
                let vote_tally = self.create_vote_map(&tallies);
                let name = self.candidate_names[loser].clone();
                self.drop_last_placed(loser);
                Some(RoundResult::CandidateEliminated(name, vote_tally))
            },
            (None, None) => {
                proof {
                    assert(!self@.candidates[live].eliminated);
                    lemma_someone_is_chosen(
                        self@.candidates,
                        tallies@,
                        self@.quota,
                        self@.candidates.len() as int,
                        live,
                    );
                }
                None
            },
        }
    }
}

} // verus!
