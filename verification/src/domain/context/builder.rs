//! Setting up a count from ballot lines and restrictions.
use crate::deserialize::VoteEntry;
use crate::domain::candidate::Candidate;
use crate::domain::candidate::CandidateView;
use crate::domain::context::Context;
use crate::domain::context::ids::IdTable;
use crate::domain::context::model::ElectionView;
use crate::domain::context::model::index_of;
use crate::domain::context::name_views;
use crate::domain::context::restriction_views;
use crate::domain::context::vote_views;
use crate::domain::restriction::Restriction;
use crate::domain::restriction::RestrictionView;
use crate::domain::vote::first_flaw;
use crate::domain::vote::FULL_STRENGTH;
use crate::domain::vote::insert_position;
use crate::domain::vote::is_valid;
use crate::domain::vote::lemma_valid_iff_flawless;
use crate::domain::vote::PreferenceView;
use crate::domain::vote::Vote;
use crate::domain::vote::VoteError;
use crate::domain::vote::VotePreference;
use crate::domain::vote::VoteView;
use vstd::prelude::*;

verus! {

/// Why the records do not make an election.
#[derive(Debug, Clone, Copy, PartialEq, Eq, Structural)]
pub enum ValidationError {
    /// The ballot of this voter is refused.
    Vote { voter: usize, error: VoteError },
    /// The restriction at this place names a member that is no candidate.
    UnknownMember { group: usize, member: usize },
    /// The restriction at this place names a member that an earlier place
    /// of a restriction names already.
    GroupedTwice { group: usize, member: usize },
}

/// Why no count was set up.
#[derive(Debug, Clone, Copy, PartialEq, Eq, Structural)]
pub enum BuildError {
    /// Fewer than two seats are to be filled.
    Configuration,
    /// The records do not make an election.
    Validation(ValidationError),
}

/// The quota: the ballots divided by the seats, rounded up.
pub open spec fn quota_of(ballots: nat, seats: nat) -> nat {
    if seats == 0 {
        0
    } else if ballots % seats == 0 {
        ballots / seats
    } else {
        ballots / seats + 1
    }
}

/// The first refused ballot among the first `n`, with the voter and the
/// reason.
pub open spec fn vote_failure_upto(voters: Seq<usize>, votes: Seq<VoteView>, n: int) -> Option<
    ValidationError,
>
    decreases n,
{
    if n <= 0 {
        None
    } else {
        match vote_failure_upto(voters, votes, n - 1) {
            Some(e) => Some(e),
            None => match first_flaw(votes[n - 1].queue, votes[n - 1].queue.len() as int) {
                Some(error) => Some(ValidationError::Vote { voter: voters[n - 1], error }),
                None => None,
            },
        }
    }
}

/// The group that the candidate with the given id is in once the first `g`
/// restrictions and the first `m` members of the next have been gone
/// through: that of the first place that names it.
pub open spec fn group_after(rs: Seq<RestrictionView>, g: int, m: int, id: usize) -> Option<usize>
    decreases g, m,
{
    if m > 0 {
        match group_after(rs, g, m - 1, id) {
            Some(x) => Some(x),
            None => if rs[g].members[m - 1] == id {
                Some(g as usize)
            } else {
                None
            },
        }
    } else if g > 0 {
        group_after(rs, g - 1, rs[g - 1].members.len() as int, id)
    } else {
        None
    }
}

/// What is wrong with member `m` of restriction `g`, given the places
/// before it.
pub open spec fn member_failure(ids: Seq<usize>, rs: Seq<RestrictionView>, g: int, m: int) -> Option<
    ValidationError,
> {
    let member = rs[g].members[m];
    if index_of(ids, member) is None {
        Some(ValidationError::UnknownMember { group: g as usize, member })
    } else if group_after(rs, g, m, member) is Some {
        Some(ValidationError::GroupedTwice { group: g as usize, member })
    } else {
        None
    }
}

/// The first failure among the members of the first `g` restrictions and
/// the first `m` members of the next.
pub open spec fn group_failure_upto(
    ids: Seq<usize>,
    rs: Seq<RestrictionView>,
    g: int,
    m: int,
) -> Option<ValidationError>
    decreases g, m,
{
    if m > 0 {
        match group_failure_upto(ids, rs, g, m - 1) {
            Some(e) => Some(e),
            None => member_failure(ids, rs, g, m - 1),
        }
    } else if g > 0 {
        group_failure_upto(ids, rs, g - 1, rs[g - 1].members.len() as int)
    } else {
        None
    }
}

/// What a builder has collected.
#[verifier::ext_equal]
pub struct BuilderView {
    /// The id of each candidate, in the order in which they were first seen.
    pub ids: Seq<usize>,
    pub names: Seq<Seq<char>>,
    /// The id of each voter, in the order in which they were first seen.
    pub voters: Seq<usize>,
    pub votes: Seq<VoteView>,
    pub restrictions: Seq<RestrictionView>,
    pub seats: usize,
}

impl BuilderView {
    /// The parts of the collection fit together.
    pub open spec fn wf(self) -> bool {
        &&& self.ids.len() == self.names.len()
        &&& self.ids.no_duplicates()
        &&& self.voters.len() == self.votes.len()
        &&& self.voters.no_duplicates()
        &&& forall|b: int| 0 <= b < self.votes.len() ==> (#[trigger] self.votes[b]).wf()
        &&& forall|b: int|
            0 <= b < self.votes.len() ==> (#[trigger] self.votes[b]).strength == FULL_STRENGTH
    }

    /// Nothing collected yet.
    pub open spec fn empty(seats: usize) -> BuilderView {
        BuilderView {
            ids: Seq::empty(),
            names: Seq::empty(),
            voters: Seq::empty(),
            votes: Seq::empty(),
            restrictions: Seq::empty(),
            seats,
        }
    }

    /// The collection with one more ballot line. An option not seen before
    /// becomes a candidate under the name that the line gives it; a voter
    /// not seen before gets a ballot; and a rank other than 0 goes onto the
    /// ballot of the voter.
    pub open spec fn with_vote(
        self,
        voter: usize,
        option: usize,
        name: Seq<char>,
        rank: usize,
    ) -> BuilderView {
        let known = index_of(self.ids, option) is Some;
        let place = index_of(self.voters, voter);
        let at = match place {
            Some(i) => i,
            None => self.voters.len() as int,
        };
        let votes = if place is Some {
            self.votes
        } else {
            self.votes.push(VoteView { strength: FULL_STRENGTH as nat, queue: Seq::empty() })
        };
        let entry = PreferenceView { candidate: option, rank };
        BuilderView {
            ids: if known {
                self.ids
            } else {
                self.ids.push(option)
            },
            names: if known {
                self.names
            } else {
                self.names.push(name)
            },
            voters: if place is Some {
                self.voters
            } else {
                self.voters.push(voter)
            },
            votes: if rank != 0 {
                votes.update(
                    at,
                    VoteView {
                        strength: votes[at].strength,
                        queue: votes[at].queue.insert(
                            insert_position(votes[at].queue, entry),
                            entry,
                        ),
                    },
                )
            } else {
                votes
            },
            ..self
        }
    }

    /// The collection with one more restriction.
    pub open spec fn with_restriction(self, restriction: RestrictionView) -> BuilderView {
        BuilderView { restrictions: self.restrictions.push(restriction), ..self }
    }

    /// The collection with more restrictions, in their order.
    pub open spec fn with_restrictions(self, restrictions: Seq<RestrictionView>) -> BuilderView {
        BuilderView { restrictions: self.restrictions + restrictions, ..self }
    }

    /// Why no count can be set up from the collection, if that is so: too
    /// few seats; else the first refused ballot; else the first member of
    /// a restriction that is no candidate or is in a group already.
    pub open spec fn failure(self) -> Option<BuildError> {
        if self.seats < 2 {
            Some(BuildError::Configuration)
        } else {
            match vote_failure_upto(self.voters, self.votes, self.votes.len() as int) {
                Some(e) => Some(BuildError::Validation(e)),
                None => match group_failure_upto(
                    self.ids,
                    self.restrictions,
                    self.restrictions.len() as int,
                    0,
                ) {
                    Some(e) => Some(BuildError::Validation(e)),
                    None => None,
                },
            }
        }
    }

    /// The count that is set up from the collection: every candidate is in
    /// the count and in the group that names it, every seat is to be
    /// filled, and no group is pending.
    pub open spec fn finished(self) -> ElectionView {
        ElectionView {
            ids: self.ids,
            candidates: Seq::new(
                self.ids.len(),
                |i: int|
                    CandidateView {
                        index: i as usize,
                        eliminated: false,
                        group: group_after(
                            self.restrictions,
                            self.restrictions.len() as int,
                            0,
                            self.ids[i],
                        ),
                        history: Seq::empty(),
                    },
            ),
            names: self.names,
            voters: self.voters,
            votes: self.votes,
            restrictions: self.restrictions,
            seats_remaining: self.seats,
            quota: quota_of(self.votes.len(), self.seats as nat) as usize,
            pending: None,
        }
    }
}

/// Collects ballot lines and restrictions, and sets up the count.
pub struct ContextBuilder {
    candidate_ids: IdTable,
    candidates: Vec<Candidate>,
    candidate_names: Vec<String>,
    voter_ids: IdTable,
    votes: Vec<Vote>,
    restrictions: Vec<Restriction>,
    seats: usize,
}

impl View for ContextBuilder {
    type V = BuilderView;

    closed spec fn view(&self) -> BuilderView {
        BuilderView {
            ids: self.candidate_ids@,
            names: name_views(self.candidate_names@),
            voters: self.voter_ids@,
            votes: vote_views(self.votes@),
            restrictions: restriction_views(self.restrictions@),
            seats: self.seats,
        }
    }
}

/// A candidate that nothing has happened to yet.
pub open spec fn fresh_candidate(i: int) -> CandidateView {
    CandidateView { index: i as usize, eliminated: false, group: None, history: Seq::empty() }
}

impl ContextBuilder {
    /// The invariant of a builder: what it has collected fits together, so
    /// that every ballot is in order and at full strength (see
    /// [`BuilderView::wf`]); and it holds one candidate for each id,
    /// untouched.
    pub closed spec fn wf(&self) -> bool {
        &&& self@.wf()
        &&& self.candidate_ids.wf()
        &&& self.voter_ids.wf()
        &&& self.candidates@.len() == self.candidate_ids@.len()
        &&& forall|i: int|
            0 <= i < self.candidates@.len() ==> (#[trigger] self.candidates@[i])@
                == fresh_candidate(i)
    }

    /// A builder for a count that is to fill `seats` seats.
    pub fn new(seats: usize) -> (r: Self)
        ensures
            r.wf(),
            r@.wf(),
            r@ == BuilderView::empty(seats),
    {
        let r = Self {
            candidate_ids: IdTable::new(),
            candidates: Vec::new(),
            candidate_names: Vec::new(),
            voter_ids: IdTable::new(),
            votes: Vec::new(),
            restrictions: Vec::new(),
            seats,
        };
        assert(r@ =~~= BuilderView::empty(seats));
        r
    }

    /// Takes in one ballot line.
    pub fn insert_vote(&mut self, vote: VoteEntry)
        requires
            old(self).wf(),
        ensures
            final(self).wf(),
            final(self)@.wf(),
            final(self)@ == old(self)@.with_vote(
                vote.user_id,
                vote.vote_option,
                vote.vote_option_full@,
                vote.vote_rank,
            ),
    {
        let ghost pre = self@;
        let ghost goal = pre.with_vote(
            vote.user_id,
            vote.vote_option,
            vote.vote_option_full@,
            vote.vote_rank,
        );
        let option = vote.vote_option;
        let rank = vote.vote_rank;
        let voter = vote.user_id;
        proof {
            pre.ids.index_of_first_ensures(option);
            pre.voters.index_of_first_ensures(voter);
        }
        if self.candidate_ids.find(option).is_none() {
            self.candidate_ids.push(option);
            self.candidate_names.push(vote.vote_option_full);
            self.candidates.push(Candidate::new(self.candidate_names.len() - 1));
        }
        assert(self@.names =~= goal.names);
        assert(self@.ids =~= goal.ids);
        let at = match self.voter_ids.find(voter) {
            Some(i) => i,
            None => {
                self.voter_ids.push(voter);
                self.votes.push(Vote::new());
                self.votes.len() - 1
            },
        };
        let ghost votes = if index_of(pre.voters, voter) is Some {
            pre.votes
        } else {
            pre.votes.push(VoteView { strength: FULL_STRENGTH as nat, queue: Seq::empty() })
        };
        assert(self@.votes =~= votes);
        if rank != 0 {
            let ghost votes_before = self.votes@;
            self.votes[at].push(VotePreference::new(option, rank));
            proof {
                assert forall|j: int| 0 <= j < votes.len() implies self@.votes[j] == goal.votes[j] by {
                    assert(self@.votes[j] == self.votes@[j]@);
                    assert(votes[j] == votes_before[j]@);
                    if j != at {
                        assert(self.votes@[j] == votes_before[j]);
                    }
                }
            }
        }
        assert(self@.votes =~= goal.votes);
        assert(self@.voters =~= goal.voters);
        assert(self@ =~= goal);
        assert(self@.wf()) by {
            assert forall|b: int| 0 <= b < self@.votes.len() implies (#[trigger] self@.votes[b]).wf() by {
                assert(self@.votes[b] == self.votes@[b]@);
                if b < pre.votes.len() {
                    assert(pre.votes[b].wf());
                    assert(pre.votes[b] == old(self).votes@[b]@);
                }
            }
        }
    }

    /// Takes in one restriction, as it is.
    pub fn insert_restriction(&mut self, restriction: Restriction)
        requires
            old(self).wf(),
        ensures
            final(self).wf(),
            final(self)@.wf(),
            final(self)@ == old(self)@.with_restriction(restriction@),
    {
        self.restrictions.push(restriction);
        assert(self@.restrictions =~= old(self)@.restrictions.push(restriction@));
        assert(self@ =~= old(self)@.with_restriction(restriction@));
    }

    /// Validates what was collected and sets up the count.
    ///
    /// The count fills `seats` seats, its quota is the number of ballots
    /// divided by the seats, rounded up, and every candidate is in the group
    /// of the restriction that names it.
    pub fn finish(self) -> (r: Result<Context, BuildError>)
        requires
            self.wf(),
        ensures
            match r {
                Ok(ctx) => self@.failure() is None && ctx.wf() && ctx@ == self@.finished(),
                Err(e) => self@.failure() == Some(e),
            },
            r is Ok <==> {
                &&& self@.seats >= 2
                &&& forall|v: int|
                    0 <= v < self@.votes.len() ==> is_valid(#[trigger] self@.votes[v].queue)
                &&& forall|g: int, m: int| #[trigger]
                    is_place(self@.restrictions, g, m) ==> index_of(
                        self@.ids,
                        self@.restrictions[g].members[m],
                    ) is Some && !named_before(
                        self@.restrictions,
                        g,
                        m,
                        self@.restrictions[g].members[m],
                    )
            },
            r matches Err(BuildError::Configuration) <==> self@.seats < 2,
            r matches Ok(ctx) ==> {
                &&& ctx@.seats_remaining == self@.seats
                &&& ctx@.quota == quota_of(self@.votes.len(), self@.seats as nat)
                &&& ctx@.pending is None
                &&& forall|b: int|
                    0 <= b < ctx@.votes.len() ==> (#[trigger] ctx@.votes[b]).strength
                        == FULL_STRENGTH
                &&& forall|i: int|
                    0 <= i < ctx@.candidates.len() ==> !(#[trigger] ctx@.candidates[i]).eliminated
                        && ctx@.candidates[i].history.len() == 0
            },
    {
        let ghost pre = self@;
        let mut builder = self;
        proof {
            law_build_succeeds_exactly_when(pre);
        }
        if builder.seats < 2 {
            return Err(BuildError::Configuration);
        }
        let nb = builder.votes.len();
        let mut b: usize = 0;
        while b < nb
            invariant
                b <= nb,
                nb == pre.votes.len(),
                builder.wf(),
                builder@ == pre,
                pre.seats >= 2,
                pre == self@,
                vote_failure_upto(pre.voters, pre.votes, b as int) is None,
            decreases nb - b,
        {
            assert(builder@.votes[b as int] == builder.votes@[b as int]@);
            match builder.votes[b].validate() {
                Err(error) => {
                    proof {
                        lemma_vote_failure_persists(pre.voters, pre.votes, b + 1, nb as int);
                        law_build_succeeds_exactly_when(pre);
                    }
                    return Err(
                        BuildError::Validation(
                            ValidationError::Vote { voter: builder.voter_ids.get(b), error },
                        ),
                    );
                },
                Ok(_) => {},
            }
            b += 1;
        }
        let seats = builder.seats;
        proof {
            if nb % seats != 0 {
                assert(nb >= 1) by (nonlinear_arith)
                    requires
                        nb % seats != 0,
                        seats >= 2,
                        nb >= 0,
                ;
                assert(nb / seats < nb) by (nonlinear_arith)
                    requires
                        seats >= 2,
                        nb >= 1,
                ;
            }
        }
        let quota = if nb % seats == 0 {
            nb / seats
        } else {
            nb / seats + 1
        };
        let ng = builder.restrictions.len();
        let nc = builder.candidates.len();
        let ghost rs = pre.restrictions;
        let mut i: usize = 0;
        while i < ng
            invariant
                i <= ng,
                ng == rs.len(),
                rs == pre.restrictions,
                nc == pre.ids.len(),
                builder@ == pre,
                pre.wf(),
                pre.seats >= 2,
                pre == self@,
                builder.candidate_ids.wf(),
                vote_failure_upto(pre.voters, pre.votes, pre.votes.len() as int) is None,
                builder.candidates@.len() == nc,
                group_failure_upto(pre.ids, rs, i as int, 0) is None,
                forall|c: int|
                    0 <= c < nc ==> (#[trigger] builder.candidates@[c])@ == (CandidateView {
                        group: group_after(rs, i as int, 0, pre.ids[c]),
                        ..fresh_candidate(c)
                    }),
                forall|c: int|
                    0 <= c < nc ==> ((#[trigger] builder.candidates@[c])@.group matches Some(x) ==> x
                        < ng),
            decreases ng - i,
        {
            assert(rs[i as int] == builder.restrictions@[i as int]@);
            let nm = builder.restrictions[i].members().len();
            let mut j: usize = 0;
            while j < nm
                invariant
                    j <= nm,
                    i < ng,
                    ng == rs.len(),
                    rs == pre.restrictions,
                    nm == rs[i as int].members.len(),
                    nc == pre.ids.len(),
                    builder@ == pre,
                    pre.wf(),
                    pre.seats >= 2,
                    pre == self@,
                    builder.candidate_ids.wf(),
                    vote_failure_upto(pre.voters, pre.votes, pre.votes.len() as int) is None,
                    builder.candidates@.len() == nc,
                    group_failure_upto(pre.ids, rs, i as int, j as int) is None,
                    forall|c: int|
                        0 <= c < nc ==> (#[trigger] builder.candidates@[c])@ == (CandidateView {
                            group: group_after(rs, i as int, j as int, pre.ids[c]),
                            ..fresh_candidate(c)
                        }),
                    forall|c: int|
                        0 <= c < nc ==> ((#[trigger] builder.candidates@[c])@.group matches Some(x)
                            ==> x < ng),
                decreases nm - j,
            {
                assert(rs[i as int] == builder.restrictions@[i as int]@);
                let member = builder.restrictions[i].members()[j];
                let ghost candidates_before = builder.candidates@;
                proof {
                    pre.ids.index_of_first_ensures(member);
                }
                let at = match builder.candidate_ids.find(member) {
                    Some(at) => at,
                    None => {
                        proof {
                            lemma_group_failure_persists(
                                pre.ids,
                                rs,
                                i as int,
                                j + 1,
                                ng as int,
                                0,
                            );
                            law_build_succeeds_exactly_when(pre);
                        }
                        return Err(
                            BuildError::Validation(
                                ValidationError::UnknownMember { group: i, member },
                            ),
                        );
                    },
                };
                match builder.candidates[at].insert_group(i) {
                    Err(_) => {
                        proof {
                            lemma_group_failure_persists(
                                pre.ids,
                                rs,
                                i as int,
                                j + 1,
                                ng as int,
                                0,
                            );
                            law_build_succeeds_exactly_when(pre);
                        }
                        return Err(
                            BuildError::Validation(
                                ValidationError::GroupedTwice { group: i, member },
                            ),
                        );
                    },
                    Ok(_) => {},
                }
                proof {
                    pre.ids.index_of_first_ensures(member);
                    assert forall|c: int| 0 <= c < nc implies (#[trigger] builder.candidates@[c])@ == (
                    CandidateView {
                        group: group_after(rs, i as int, j + 1, pre.ids[c]),
                        ..fresh_candidate(c)
                    }) by {
                        if c != at {
                            assert(builder.candidates@[c] == candidates_before[c]);
                            assert(pre.ids[c] != member);
                        }
                    }
                    assert forall|c: int| 0 <= c < nc implies ((#[trigger] builder.candidates@[c])@.group matches Some(
                        x,
                    ) ==> x < ng) by {
                        if c != at {
                            assert(builder.candidates@[c] == candidates_before[c]);
                        }
                    }
                }
                j += 1;
            }
            i += 1;
        }
        let ctx = Context {
            candidate_ids: builder.candidate_ids,
            candidates: builder.candidates,
            candidate_names: builder.candidate_names,
            voter_ids: builder.voter_ids,
            votes: builder.votes,
            seats_remaining: seats,
            quota,
            restrictions: builder.restrictions,
            active_group_elimination: None,
        };
        proof {
            law_build_succeeds_exactly_when(pre);
            let goal = pre.finished();
            assert(quota == quota_of(nb as nat, seats as nat));
            assert(ctx@.candidates =~= goal.candidates);
            assert(ctx@ =~= goal);
        }
        Ok(ctx)
    }
}

/// A refused ballot among the first `m` is still the first refused among
/// the first `n`.
proof fn lemma_vote_failure_persists(voters: Seq<usize>, votes: Seq<VoteView>, m: int, n: int)
    requires
        0 <= m <= n,
        vote_failure_upto(voters, votes, m) is Some,
    ensures
        vote_failure_upto(voters, votes, n) == vote_failure_upto(voters, votes, m),
    decreases n - m,
{
    if m < n {
        lemma_vote_failure_persists(voters, votes, m, n - 1);
    }
}

/// A failure up to member `m` of restriction `g` is still the first failure
/// up to any later place.
proof fn lemma_group_failure_persists(
    ids: Seq<usize>,
    rs: Seq<RestrictionView>,
    g: int,
    m: int,
    g2: int,
    m2: int,
)
    requires
        0 <= g,
        0 <= m,
        0 <= m2,
        m <= rs[g].members.len(),
        g < g2 || (g == g2 && m <= m2),
        group_failure_upto(ids, rs, g, m) is Some,
    ensures
        group_failure_upto(ids, rs, g2, m2) == group_failure_upto(ids, rs, g, m),
    decreases g2, m2,
{
    if g == g2 && m == m2 {
    } else if m2 > 0 {
        lemma_group_failure_persists(ids, rs, g, m, g2, m2 - 1);
    } else {
        lemma_group_failure_persists(ids, rs, g, m, g2 - 1, rs[g2 - 1].members.len() as int);
    }
}

/// `m` is the place of a member of the restriction at `g`.
pub open spec fn is_place(rs: Seq<RestrictionView>, g: int, m: int) -> bool {
    0 <= g < rs.len() && 0 <= m < rs[g].members.len()
}

/// An earlier restriction than the one at `g`, or an earlier member of that
/// one than the one at `m`, names the candidate with the given id.
pub open spec fn named_before(rs: Seq<RestrictionView>, g: int, m: int, id: usize) -> bool {
    exists|g2: int, m2: int|
        #[trigger] is_place(rs, g2, m2) && (g2 < g || (g2 == g && m2 < m)) && rs[g2].members[m2]
            == id
}

/// The first `n` ballots are all valid exactly when none of them is
/// reported.
pub proof fn lemma_votes_pass(voters: Seq<usize>, votes: Seq<VoteView>, n: int)
    requires
        0 <= n <= votes.len(),
    ensures
        vote_failure_upto(voters, votes, n) is None <==> forall|b: int|
            0 <= b < n ==> is_valid(#[trigger] votes[b].queue),
    decreases n,
{
    if n > 0 {
        lemma_votes_pass(voters, votes, n - 1);
        let q = votes[n - 1].queue;
        lemma_valid_iff_flawless(q, q.len() as int);
        assert(q.take(q.len() as int) =~= q);
    }
}

/// A candidate is in a group at some point of going through the
/// restrictions exactly when a member place gone through names it.
pub proof fn lemma_grouped_when_named(rs: Seq<RestrictionView>, g: int, m: int, id: usize)
    requires
        0 <= g <= rs.len(),
        0 <= m,
        g < rs.len() ==> m <= rs[g].members.len(),
        g == rs.len() ==> m == 0,
    ensures
        group_after(rs, g, m, id) is Some <==> named_before(rs, g, m, id),
    decreases g, m,
{
    if m > 0 {
        lemma_grouped_when_named(rs, g, m - 1, id);
        if named_before(rs, g, m - 1, id) {
            let (g2, m2) = choose|g2: int, m2: int|
                #[trigger] is_place(rs, g2, m2) && (g2 < g || (g2 == g && m2 < m - 1))
                    && rs[g2].members[m2] == id;
            assert(is_place(rs, g2, m2));
        } else if rs[g].members[m - 1] == id {
            assert(is_place(rs, g, m - 1));
        }
        if named_before(rs, g, m, id) {
            let (g2, m2) = choose|g2: int, m2: int|
                #[trigger] is_place(rs, g2, m2) && (g2 < g || (g2 == g && m2 < m))
                    && rs[g2].members[m2] == id;
            if !(g2 == g && m2 == m - 1) {
                assert(is_place(rs, g2, m2));
                assert(named_before(rs, g, m - 1, id));
            }
        }
    } else if g > 0 {
        let last = rs[g - 1].members.len() as int;
        lemma_grouped_when_named(rs, g - 1, last, id);
        if named_before(rs, g - 1, last, id) {
            let (g2, m2) = choose|g2: int, m2: int|
                #[trigger] is_place(rs, g2, m2) && (g2 < g - 1 || (g2 == g - 1 && m2 < last))
                    && rs[g2].members[m2] == id;
            assert(is_place(rs, g2, m2));
        }
        if named_before(rs, g, m, id) {
            let (g2, m2) = choose|g2: int, m2: int|
                #[trigger] is_place(rs, g2, m2) && (g2 < g || (g2 == g && m2 < m))
                    && rs[g2].members[m2] == id;
            assert(is_place(rs, g2, m2));
            assert(named_before(rs, g - 1, last, id));
        }
    }
}

/// The group that a candidate is in is one whose restriction names it, at
/// a member place gone through.
pub proof fn lemma_group_names_its_member(rs: Seq<RestrictionView>, g: int, m: int, id: usize) -> (m2:
    int)
    requires
        0 <= g <= rs.len(),
        rs.len() <= usize::MAX,
        0 <= m,
        g < rs.len() ==> m <= rs[g].members.len(),
        g == rs.len() ==> m == 0,
        group_after(rs, g, m, id) is Some,
    ensures
        ({
            let x = group_after(rs, g, m, id)->0 as int;
            is_place(rs, x, m2) && (x < g || (x == g && m2 < m)) && rs[x].members[m2] == id
        }),
    decreases g, m,
{
    if m > 0 {
        if group_after(rs, g, m - 1, id) is Some {
            lemma_group_names_its_member(rs, g, m - 1, id)
        } else {
            m - 1
        }
    } else {
        lemma_group_names_its_member(rs, g - 1, rs[g - 1].members.len() as int, id)
    }
}

/// Going through the restrictions finds nothing wrong exactly when every
/// member place gone through names a candidate that no earlier place
/// names.
pub proof fn lemma_groups_pass(ids: Seq<usize>, rs: Seq<RestrictionView>, g: int, m: int)
    requires
        0 <= g <= rs.len(),
        0 <= m,
        g < rs.len() ==> m <= rs[g].members.len(),
        g == rs.len() ==> m == 0,
    ensures
        group_failure_upto(ids, rs, g, m) is None <==> forall|g2: int, m2: int|
            #[trigger] is_place(rs, g2, m2) && (g2 < g || (g2 == g && m2 < m)) ==> index_of(
                ids,
                rs[g2].members[m2],
            ) is Some && !named_before(rs, g2, m2, rs[g2].members[m2]),
    decreases g, m,
{
    if m > 0 {
        lemma_groups_pass(ids, rs, g, m - 1);
        lemma_grouped_when_named(rs, g, m - 1, rs[g].members[m - 1]);
        if group_failure_upto(ids, rs, g, m) is None {
            assert forall|g2: int, m2: int|
                #[trigger] is_place(rs, g2, m2) && (g2 < g || (g2 == g && m2 < m)) implies index_of(
                ids,
                rs[g2].members[m2],
            ) is Some && !named_before(rs, g2, m2, rs[g2].members[m2]) by {
                if g2 == g && m2 == m - 1 {
                } else {
                    assert(g2 < g || (g2 == g && m2 < m - 1));
                }
            }
        } else {
            if group_failure_upto(ids, rs, g, m - 1) is None {
                assert(is_place(rs, g, m - 1));
            } else {
                let (g2, m2) = choose|g2: int, m2: int|
                    #[trigger] is_place(rs, g2, m2) && (g2 < g || (g2 == g && m2 < m - 1)) && !(
                    index_of(ids, rs[g2].members[m2]) is Some && !named_before(
                        rs,
                        g2,
                        m2,
                        rs[g2].members[m2],
                    ));
                assert(is_place(rs, g2, m2));
            }
        }
    } else if g > 0 {
        let last = rs[g - 1].members.len() as int;
        lemma_groups_pass(ids, rs, g - 1, last);
        if group_failure_upto(ids, rs, g, m) is None {
            assert forall|g2: int, m2: int|
                #[trigger] is_place(rs, g2, m2) && (g2 < g || (g2 == g && m2 < m)) implies index_of(
                ids,
                rs[g2].members[m2],
            ) is Some && !named_before(rs, g2, m2, rs[g2].members[m2]) by {
                assert(g2 < g - 1 || (g2 == g - 1 && m2 < last));
            }
        } else {
            let (g2, m2) = choose|g2: int, m2: int|
                #[trigger] is_place(rs, g2, m2) && (g2 < g - 1 || (g2 == g - 1 && m2 < last)) && !(
                index_of(ids, rs[g2].members[m2]) is Some && !named_before(
                    rs,
                    g2,
                    m2,
                    rs[g2].members[m2],
                ));
            assert(is_place(rs, g2, m2));
        }
    }
}

/// When a count is owed: at least two seats are to be filled, no ballot
/// names a candidate or a rank twice, and every member of a restriction is
/// a candidate that no other member place names, in the same restriction or
/// in another. In every other case `finish` fails.
pub proof fn law_build_succeeds_exactly_when(b: BuilderView)
    ensures
        b.failure() is None <==> {
            &&& b.seats >= 2
            &&& forall|v: int| 0 <= v < b.votes.len() ==> is_valid(#[trigger] b.votes[v].queue)
            &&& forall|g: int, m: int| #[trigger]
                is_place(b.restrictions, g, m) ==> index_of(
                    b.ids,
                    b.restrictions[g].members[m],
                ) is Some && !named_before(b.restrictions, g, m, b.restrictions[g].members[m])
        },
        b.failure() == Some(BuildError::Configuration) <==> b.seats < 2,
{
    lemma_votes_pass(b.voters, b.votes, b.votes.len() as int);
    lemma_groups_pass(b.ids, b.restrictions, b.restrictions.len() as int, 0);
}

/// In a count that was set up, a candidate is in the group at `g` exactly
/// when the restriction at `g` names it.
pub proof fn law_groups_follow_restrictions(b: BuilderView, i: int, g: int)
    requires
        b.failure() is None,
        0 <= i < b.ids.len(),
        0 <= g < b.restrictions.len(),
        b.restrictions.len() <= usize::MAX,
    ensures
        b.finished().candidates[i].group == Some(g as usize) <==> b.restrictions[g].members.contains(
            b.ids[i],
        ),
{
    let rs = b.restrictions;
    let id = b.ids[i];
    let n = rs.len() as int;
    lemma_grouped_when_named(rs, n, 0, id);
    law_build_succeeds_exactly_when(b);
    let group = group_after(rs, n, 0, id);
    if group == Some(g as usize) {
        let m2 = lemma_group_names_its_member(rs, n, 0, id);
        assert(rs[g].members[m2] == id);
    }
    if rs[g].members.contains(id) {
        let m = choose|m: int| 0 <= m < rs[g].members.len() && rs[g].members[m] == id;
        assert(is_place(rs, g, m));
        assert(named_before(rs, n, 0, id));
        let x = group->0 as int;
        let m2 = lemma_group_names_its_member(rs, n, 0, id);
        if x != g {
            if x < g {
                assert(is_place(rs, x, m2));
                assert(named_before(rs, g, m, id));
            } else {
                assert(is_place(rs, g, m));
                assert(named_before(rs, x, m2, id));
            }
            assert(false);
        }
    }
}

/// A count set up from restrictions that all let a member be elected has
/// no group that may elect no more.
pub proof fn law_fresh_count_pends_nothing(b: BuilderView)
    requires
        forall|g: int| 0 <= g < b.restrictions.len() ==> (#[trigger] b.restrictions[g]).limit > 0,
    ensures
        b.finished().exhausted_groups_pending(),
        b.finished().pending is None,
{
}

} // verus!
