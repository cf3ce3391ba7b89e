//! What holds of every count, proved from the model of one step.
use crate::domain::candidate::CandidateView;
use crate::domain::candidate::compare_histories;
use crate::domain::candidate::HistoryOrder;
use crate::domain::context::model::bucket_of;
use crate::domain::context::model::counted_strength;
use crate::domain::context::model::ElectionView;
use crate::domain::context::model::first_live_from;
use crate::domain::context::model::first_live_member_from;
use crate::domain::context::model::has_live;
use crate::domain::context::model::index_of;
use crate::domain::context::model::is_live_id;
use crate::domain::context::model::leader_upto;
use crate::domain::context::model::listed_strength;
use crate::domain::context::model::live_count;
use crate::domain::context::model::RoundResultView;
use crate::domain::context::model::tally_sum;
use crate::domain::context::model::target_of;
use crate::domain::context::model::total_weight;
use crate::domain::context::model::trailer_upto;
use crate::domain::context::model::weight_upto;
use crate::domain::vote::FULL_STRENGTH;
use crate::domain::vote::is_valid;
use crate::domain::vote::lemma_rest_of_queue_is_valid;
use crate::domain::vote::lemma_scaled_bounds;
use crate::domain::vote::PreferenceView;
use crate::domain::vote::VoteView;
use vstd::prelude::*;

verus! {

/// A leader is one of the candidates looked at, is in the count, and its
/// tally reaches the quota.
pub proof fn lemma_leader_qualifies(
    candidates: Seq<CandidateView>,
    tallies: Seq<usize>,
    quota: usize,
    n: int,
)
    ensures
        leader_upto(candidates, tallies, quota, n) matches Some(w) ==> 0 <= w < n
            && !candidates[w].eliminated && tallies[w] >= quota,
    decreases n,
{
    if n > 0 {
        lemma_leader_qualifies(candidates, tallies, quota, n - 1);
    }
}

/// The last is one of the candidates looked at, is in the count, and its
/// tally stays under the quota.
pub proof fn lemma_trailer_qualifies(
    candidates: Seq<CandidateView>,
    tallies: Seq<usize>,
    quota: usize,
    n: int,
)
    ensures
        trailer_upto(candidates, tallies, quota, n) matches Some(l) ==> 0 <= l < n
            && !candidates[l].eliminated && tallies[l] < quota,
    decreases n,
{
    if n > 0 {
        lemma_trailer_qualifies(candidates, tallies, quota, n - 1);
    }
}

/// Where a candidate among those looked at is in the count, there is a
/// leader or a last one.
pub proof fn lemma_someone_is_chosen(
    candidates: Seq<CandidateView>,
    tallies: Seq<usize>,
    quota: usize,
    n: int,
    i: int,
)
    requires
        0 <= i < n,
        !candidates[i].eliminated,
    ensures
        leader_upto(candidates, tallies, quota, n) is Some || trailer_upto(
            candidates,
            tallies,
            quota,
            n,
        ) is Some,
    decreases n,
{
    if i < n - 1 {
        lemma_someone_is_chosen(candidates, tallies, quota, n - 1, i);
    }
}

/// No candidate in the count that reaches the quota has a higher tally
/// than the leader, and there is a leader as soon as one reaches the quota.
pub proof fn law_leader_has_the_highest_tally(
    candidates: Seq<CandidateView>,
    tallies: Seq<usize>,
    quota: usize,
    n: int,
    i: int,
)
    requires
        0 <= i < n,
        !candidates[i].eliminated,
        tallies[i] >= quota,
    ensures
        leader_upto(candidates, tallies, quota, n) is Some,
        tallies[i] <= tallies[leader_upto(candidates, tallies, quota, n)->0],
    decreases n,
{
    lemma_leader_qualifies(candidates, tallies, quota, n - 1);
    if i < n - 1 {
        law_leader_has_the_highest_tally(candidates, tallies, quota, n - 1, i);
    }
}

/// No candidate in the count that stays under the quota has a lower tally
/// than the last one, and there is a last one as soon as one stays under
/// the quota.
pub proof fn law_trailer_has_the_lowest_tally(
    candidates: Seq<CandidateView>,
    tallies: Seq<usize>,
    quota: usize,
    n: int,
    i: int,
)
    requires
        0 <= i < n,
        !candidates[i].eliminated,
        tallies[i] < quota,
    ensures
        trailer_upto(candidates, tallies, quota, n) is Some,
        tallies[i] >= tallies[trailer_upto(candidates, tallies, quota, n)->0],
    decreases n,
{
    lemma_trailer_qualifies(candidates, tallies, quota, n - 1);
    if i < n - 1 {
        law_trailer_has_the_lowest_tally(candidates, tallies, quota, n - 1, i);
    }
}

/// Between candidates of one tally the one seen first leads unless a later
/// one has the higher history: a leader never has a candidate before it
/// that is in the count with a higher tally, and a candidate before it with
/// the same tally was not the leader then, or had the lower history.
pub proof fn law_first_seen_leads_unless_history_decides(
    candidates: Seq<CandidateView>,
    tallies: Seq<usize>,
    quota: usize,
    n: int,
)
    requires
        n > 0,
        leader_upto(candidates, tallies, quota, n) == Some(n - 1),
    ensures
        match leader_upto(candidates, tallies, quota, n - 1) {
            None => true,
            Some(p) => tallies[n - 1] > tallies[p] || (tallies[n - 1] == tallies[p]
                && compare_histories(
                candidates[n - 1].history,
                candidates[p].history,
            ) == HistoryOrder::Higher),
        },
{
    lemma_leader_qualifies(candidates, tallies, quota, n - 1);
}

/// The quota is the same after a step as before it.
pub proof fn law_quota_is_fixed(s: ElectionView)
    ensures
        s.step().0.quota == s.quota,
{
}

/// The quota is the same after any number of steps.
pub proof fn law_quota_is_fixed_for_good(s: ElectionView, n: nat)
    ensures
        s.after(n).quota == s.quota,
    decreases n,
{
    if n > 0 {
        law_quota_is_fixed_for_good(s, (n - 1) as nat);
        law_quota_is_fixed(s.after((n - 1) as nat));
    }
}

/// A step that elects a candidate takes exactly one seat, and only while a
/// seat is left; any other step leaves the seats as they are.
pub proof fn law_seats_go_to_winners(s: ElectionView)
    ensures
        s.step().1 matches Some(RoundResultView::CandidateSucceeded(_, _, _))
            ==> s.seats_remaining > 0 && s.step().0.seats_remaining == s.seats_remaining - 1,
        !(s.step().1 matches Some(RoundResultView::CandidateSucceeded(_, _, _)))
            ==> s.step().0.seats_remaining == s.seats_remaining,
{
}

/// However many steps are taken, the candidates elected and the seats left
/// add up to the seats that the count began with: no more candidates are
/// elected than there were seats.
pub proof fn law_wins_never_exceed_seats(s: ElectionView, n: nat)
    ensures
        s.wins(n) + s.after(n).seats_remaining == s.seats_remaining,
        s.wins(n) <= s.seats_remaining,
    decreases n,
{
    if n > 0 {
        law_wins_never_exceed_seats(s, (n - 1) as nat);
        law_seats_go_to_winners(s.after((n - 1) as nat));
    }
}

/// A step changes neither the number of ballots nor their order, and no
/// ballot is stronger after it than before.
pub proof fn law_strength_never_grows(s: ElectionView, b: int)
    requires
        0 <= b < s.votes.len(),
    ensures
        s.step().0.votes.len() == s.votes.len(),
        s.step().0.votes[b].strength <= s.votes[b].strength,
{
    let settled = s.settled();
    let cleaned = settled.cleaned();
    let tallies = cleaned.tallies();
    let counted = cleaned.recorded(tallies);
    lemma_leader_qualifies(counted.candidates, tallies, counted.quota, counted.candidates.len() as int);
    if let Some(w) = counted.leader(tallies) {
        lemma_scaled_bounds(
            cleaned.votes[b].strength,
            (tallies[w] - counted.quota) as nat,
            tallies[w] as nat,
        );
    }
}

/// A ballot that has strength keeps some through every step, except one:
/// the election of a candidate whose tally is exactly the quota, and not
/// zero, uses up the ballots that elect it.
pub proof fn law_strength_stays_positive(s: ElectionView, b: int)
    requires
        0 <= b < s.votes.len(),
        s.votes[b].strength > 0,
        s.step().1 matches Some(RoundResultView::CandidateSucceeded(_, tally, _)) ==> tally
            != s.quota || tally == 0,
    ensures
        s.step().0.votes[b].strength > 0,
{
    let settled = s.settled();
    let cleaned = settled.cleaned();
    let tallies = cleaned.tallies();
    let counted = cleaned.recorded(tallies);
    lemma_leader_qualifies(counted.candidates, tallies, counted.quota, counted.candidates.len() as int);
    if let Some(w) = counted.leader(tallies) {
        lemma_scaled_bounds(
            cleaned.votes[b].strength,
            (tallies[w] - counted.quota) as nat,
            tallies[w] as nat,
        );
    }
}

/// A step only takes preferences off the front of a ballot: what is left
/// is the old queue without its first `k` entries, for some `k`.
pub proof fn law_queue_only_shrinks(s: ElectionView, b: int) -> (k: int)
    requires
        0 <= b < s.votes.len(),
    ensures
        0 <= k <= s.votes[b].queue.len(),
        s.step().0.votes[b].queue == s.votes[b].queue.skip(k),
{
    let q = s.votes[b].queue;
    let after = s.step().0.votes[b].queue;
    if after == q {
        assert(q.skip(0) =~= q);
        0
    } else if s.seats_remaining > 0 && s.sweep_target() is Some {
        1
    } else {
        let settled = s.settled();
        let cleaned = settled.cleaned();
        let tallies = cleaned.tallies();
        let counted = cleaned.recorded(tallies);
        let f = first_live_from(s.ids, s.candidates, q, 0);
        lemma_first_live_in_range(s, q, 0);
        assert(cleaned.votes[b].queue == q.skip(f));
        if after == q.skip(f) {
            f
        } else {
            assert(after == q.skip(f).skip(1));
            assert(target_of(cleaned.ids, cleaned.votes[b]) is Some);
            assert(q.skip(f).len() > 0);
            assert(q.skip(f).skip(1) =~= q.skip(f + 1));
            f + 1
        }
    }
}

/// The first preference for a candidate in the count lies in the queue or
/// right behind it.
pub proof fn lemma_first_live_in_range(s: ElectionView, q: Seq<PreferenceView>, from: int)
    requires
        0 <= from <= q.len(),
    ensures
        from <= first_live_from(s.ids, s.candidates, q, from) <= q.len(),
    decreases q.len() - from,
{
    if from < q.len() {
        lemma_first_live_in_range(s, q, from + 1);
    }
}

/// Every step that reports something takes exactly one candidate out of
/// the count, and no step brings one back: there are no more reports than
/// candidates.
pub proof fn law_report_takes_one_candidate_out(s: ElectionView) -> (c: int)
    requires
        s.wf(),
        s.step().1 is Some,
    ensures
        0 <= c < s.candidates.len(),
        !s.candidates[c].eliminated,
        s.step().0.candidates.len() == s.candidates.len(),
        forall|i: int|
            0 <= i < s.candidates.len() ==> (#[trigger] s.step().0.candidates[i]).eliminated == (i
                == c || s.candidates[i].eliminated),
{
    if let Some(c) = s.sweep_target() {
        lemma_sweep_target_is_live(s);
        c
    } else {
        let settled = s.settled();
        let cleaned = settled.cleaned();
        let tallies = cleaned.tallies();
        let counted = cleaned.recorded(tallies);
        let n = counted.candidates.len() as int;
        lemma_leader_qualifies(counted.candidates, tallies, counted.quota, n);
        lemma_trailer_qualifies(counted.candidates, tallies, counted.quota, n);
        match counted.leader(tallies) {
            Some(w) => w,
            None => counted.trailer(tallies)->0,
        }
    }
}

/// The candidate that a pending group loses next is in the count.
pub proof fn lemma_sweep_target_is_live(s: ElectionView)
    requires
        s.sweep_target() is Some,
    ensures
        0 <= s.sweep_target()->0 < s.ids.len(),
        !s.candidates[s.sweep_target()->0].eliminated,
{
    let members = s.restrictions[s.pending->0 as int].members;
    lemma_first_live_member_is_live(s, members, 0);
}

/// The first member in the count, if there is one, is a candidate in the
/// count.
pub proof fn lemma_first_live_member_is_live(s: ElectionView, members: Seq<usize>, j: int)
    requires
        0 <= j,
    ensures
        first_live_member_from(s.ids, s.candidates, members, j) matches Some(
            c,
        ) ==> 0 <= c < s.ids.len() && !s.candidates[c].eliminated,
    decreases members.len() - j,
{
    if j < members.len() {
        s.ids.index_of_first_ensures(members[j]);
        lemma_first_live_member_is_live(s, members, j + 1);
    }
}

/// While a seat is left and a candidate is in the count, every step
/// reports something.
pub proof fn law_count_goes_on(s: ElectionView)
    requires
        s.seats_remaining > 0,
        has_live(s.candidates),
    ensures
        s.step().1 is Some,
{
    if s.sweep_target() is None {
        let settled = s.settled();
        let cleaned = settled.cleaned();
        let tallies = cleaned.tallies();
        let counted = cleaned.recorded(tallies);
        let i = choose|i: int| 0 <= i < s.candidates.len() && !(#[trigger] s.candidates[i]).eliminated;
        assert(!counted.candidates[i].eliminated);
        lemma_someone_is_chosen(
            counted.candidates,
            tallies,
            counted.quota,
            counted.candidates.len() as int,
            i,
        );
    }
}

/// The first member in the count is found by going through the members in
/// their order: it stands at some place `k`, and no member before `k` is in
/// the count.
pub proof fn law_first_live_member_is_first(s: ElectionView, members: Seq<usize>, j: int) -> (k:
    int)
    requires
        0 <= j,
        first_live_member_from(s.ids, s.candidates, members, j) is Some,
    ensures
        j <= k < members.len(),
        is_live_id(s.ids, s.candidates, members[k]),
        index_of(s.ids, members[k]) == first_live_member_from(s.ids, s.candidates, members, j),
        forall|i: int| j <= i < k ==> !is_live_id(s.ids, s.candidates, #[trigger] members[i]),
    decreases members.len() - j,
{
    if is_live_id(s.ids, s.candidates, members[j]) {
        j
    } else {
        law_first_live_member_is_first(s, members, j + 1)
    }
}

/// A pending group with a member in the count loses exactly that member in
/// the next step, whatever the ballots say: the first of its members, in
/// their order, that is in the count. Nothing is counted in that step, no
/// seat is taken, and the group stays pending exactly as long as another
/// member is in the count.
pub proof fn law_pending_group_loses_next_member(s: ElectionView)
    requires
        s.seats_remaining > 0,
        s.sweep_target() is Some,
    ensures
        ({
            let c = s.sweep_target()->0;
            let g = s.pending->0 as int;
            let after = s.step().0;
            &&& s.step().1 == Some(
                RoundResultView::CandidateEliminatedByRestriction(
                    s.names[c],
                    s.restrictions[g].name,
                ),
            )
            &&& after.candidates == s.candidates.update(
                c,
                CandidateView { eliminated: true, ..s.candidates[c] },
            )
            &&& after.restrictions == s.restrictions
            &&& after.seats_remaining == s.seats_remaining
            &&& after.pending == if after.has_live_member(g) {
                s.pending
            } else {
                None
            }
        }),
{
}

/// Taking candidates out of the count brings no member of a group into it.
pub proof fn lemma_members_only_leave(
    s: ElectionView,
    later: Seq<CandidateView>,
    members: Seq<usize>,
    j: int,
)
    requires
        0 <= j,
        s.ids.len() == s.candidates.len(),
        later.len() == s.candidates.len(),
        forall|i: int|
            0 <= i < later.len() ==> (s.candidates[i].eliminated ==> (#[trigger] later[i]).eliminated),
        first_live_member_from(s.ids, later, members, j) is Some,
    ensures
        first_live_member_from(s.ids, s.candidates, members, j) is Some,
    decreases members.len() - j,
{
    if j < members.len() {
        s.ids.index_of_first_ensures(members[j]);
        if !is_live_id(s.ids, later, members[j]) {
            lemma_members_only_leave(s, later, members, j + 1);
        }
    }
}

/// Once a group may elect no more, its members leave the count before any
/// further ordinary round: if every such group with a member in the count
/// is pending before a step, the same holds after it. A pending group with
/// a member in the count means that the next step is no ordinary round
/// (see [`law_pending_group_loses_next_member`]).
pub proof fn law_exhausted_groups_stay_pending(s: ElectionView)
    requires
        s.wf(),
        s.exhausted_groups_pending(),
    ensures
        s.step().0.exhausted_groups_pending(),
{
    let after = s.step().0;
    if s.seats_remaining == 0 {
    } else if let Some(c) = s.sweep_target() {
        lemma_sweep_target_is_live(s);
        assert forall|g: int|
            0 <= g < after.restrictions.len() && (#[trigger] after.restrictions[g]).limit == 0
                && after.has_live_member(g) implies after.pending == Some(g as usize) by {
            lemma_members_only_leave(s, after.candidates, s.restrictions[g].members, 0);
            assert(s.has_live_member(g));
            assert(s.pending == Some(g as usize));
            assert(s.without(c).sweep_target() is Some);
        }
    } else {
        let settled = s.settled();
        let cleaned = settled.cleaned();
        let tallies = cleaned.tallies();
        let counted = cleaned.recorded(tallies);
        let n = counted.candidates.len() as int;
        lemma_leader_qualifies(counted.candidates, tallies, counted.quota, n);
        lemma_trailer_qualifies(counted.candidates, tallies, counted.quota, n);
        assert forall|g: int|
            0 <= g < after.restrictions.len() && (#[trigger] after.restrictions[g]).limit == 0
                && after.has_live_member(g) implies after.pending == Some(g as usize) by {
            lemma_members_only_leave(s, after.candidates, s.restrictions[g].members, 0);
            assert(s.has_live_member(g));
            if s.restrictions[g].limit == 0 {
                assert(s.pending == Some(g as usize));
                assert(false);
            } else {
                assert(after.restrictions[g] != s.restrictions[g]);
                let w = counted.leader(tallies)->0;
                assert(counted.candidates[w].group == Some(g as usize));
            }
        }
    }
}

/// Adding one ballot adds its strength to the candidate that it names
/// first, and to no other.
proof fn lemma_total_weight_step(ids: Seq<usize>, votes: Seq<VoteView>, c: int, n: int)
    requires
        n > 0,
    ensures
        total_weight(ids, votes, c, n) == total_weight(ids, votes, c, n - 1) + if target_of(
            ids,
            votes[n - 1],
        ) matches Some(t) && 0 <= t < c {
            votes[n - 1].strength
        } else {
            0
        },
    decreases c,
{
    if c > 0 {
        lemma_total_weight_step(ids, votes, c - 1, n);
    }
}

/// No ballot is counted twice and none for two candidates: the strength
/// that the candidates receive together is the strength of the ballots
/// that name one of them first.
pub proof fn law_every_ballot_counts_once(ids: Seq<usize>, votes: Seq<VoteView>, c: int, n: int)
    ensures
        total_weight(ids, votes, c, n) == counted_strength(ids, votes, c, n),
    decreases n,
{
    if n > 0 {
        law_every_ballot_counts_once(ids, votes, c, n - 1);
        lemma_total_weight_step(ids, votes, c, n);
    } else {
        lemma_total_weight_of_nothing(ids, votes, c, n);
    }
}

/// No ballots lend no strength.
proof fn lemma_total_weight_of_nothing(ids: Seq<usize>, votes: Seq<VoteView>, c: int, n: int)
    requires
        n <= 0,
    ensures
        total_weight(ids, votes, c, n) == 0,
    decreases c,
{
    if c > 0 {
        lemma_total_weight_of_nothing(ids, votes, c - 1, n);
    }
}

/// A ballot on which no candidate and no rank occurs twice stays so through
/// every step. With [`law_queue_only_shrinks`] and
/// [`crate::domain::vote::law_valid_queue_leaves_in_rank_order`]: the
/// preferences leave a ballot in strictly rising rank, and no candidate
/// leaves it twice.
pub proof fn law_valid_ballots_stay_valid(s: ElectionView, b: int)
    requires
        0 <= b < s.votes.len(),
        is_valid(s.votes[b].queue),
    ensures
        is_valid(s.step().0.votes[b].queue),
{
    let k = law_queue_only_shrinks(s, b);
    lemma_rest_of_queue_is_valid(s.votes[b].queue, k);
}

/// A step leaves the parts of the state fitting together: every ballot is
/// still in order and no stronger than a full vote, and every candidate
/// still holds its place.
pub proof fn law_step_keeps_state_well_formed(s: ElectionView)
    requires
        s.wf(),
    ensures
        s.step().0.wf(),
{
    let after = s.step().0;
    assert(after.votes.len() == s.votes.len());
    assert forall|b: int| 0 <= b < after.votes.len() implies (#[trigger] after.votes[b]).wf() by {
        let k = law_queue_only_shrinks(s, b);
        lemma_rest_of_queue_is_valid(s.votes[b].queue, k);
        law_strength_never_grows(s, b);
        assert(s.votes[b].wf());
    }
    if s.seats_remaining == 0 {
    } else if let Some(c) = s.sweep_target() {
        lemma_sweep_target_is_live(s);
        assert forall|i: int| 0 <= i < after.candidates.len() implies (
        #[trigger] after.candidates[i]).index == i && (after.candidates[i].group matches Some(g)
            ==> g < after.restrictions.len()) by {
            assert(s.candidates[i].index == i);
        }
    } else {
        let settled = s.settled();
        let cleaned = settled.cleaned();
        let tallies = cleaned.tallies();
        let counted = cleaned.recorded(tallies);
        let n = counted.candidates.len() as int;
        lemma_leader_qualifies(counted.candidates, tallies, counted.quota, n);
        lemma_trailer_qualifies(counted.candidates, tallies, counted.quota, n);
        assert forall|i: int| 0 <= i < counted.candidates.len() implies (
        #[trigger] counted.candidates[i]).index == i && (counted.candidates[i].group matches Some(
            g,
        ) ==> g < s.restrictions.len()) by {
            assert(s.candidates[i].index == i);
        }
        assert forall|i: int| 0 <= i < after.candidates.len() implies (
        #[trigger] after.candidates[i]).index == i && (after.candidates[i].group matches Some(g)
            ==> g < after.restrictions.len()) by {
            assert(counted.candidates[i].index == i);
        }
    }
}

/// The parts of the state fit together after any number of steps.
pub proof fn law_state_stays_well_formed(s: ElectionView, n: nat)
    requires
        s.wf(),
    ensures
        s.after(n).wf(),
    decreases n,
{
    if n > 0 {
        law_state_stays_well_formed(s, (n - 1) as nat);
        law_step_keeps_state_well_formed(s.after((n - 1) as nat));
    }
}

/// However many steps are taken, there are as many ballots as before, and
/// none is stronger than it was: a ballot that began with a full vote never
/// has more.
pub proof fn law_strength_never_grows_for_good(s: ElectionView, n: nat, b: int)
    requires
        0 <= b < s.votes.len(),
    ensures
        s.after(n).votes.len() == s.votes.len(),
        s.after(n).votes[b].strength <= s.votes[b].strength,
    decreases n,
{
    if n > 0 {
        law_strength_never_grows_for_good(s, (n - 1) as nat, b);
        law_strength_never_grows(s.after((n - 1) as nat), b);
    }
}

/// What a count reports depends on nothing but its state: two counts that
/// agree in every part report the same, step by step, and stay in
/// agreement.
pub proof fn law_equal_counts_report_equally(a: ElectionView, b: ElectionView, n: nat)
    requires
        a.ids == b.ids,
        a.candidates == b.candidates,
        a.names == b.names,
        a.voters == b.voters,
        a.votes == b.votes,
        a.restrictions == b.restrictions,
        a.seats_remaining == b.seats_remaining,
        a.quota == b.quota,
        a.pending == b.pending,
    ensures
        a.reports(n) == b.reports(n),
        a.after(n) == b.after(n),
{
    assert(a =~= b);
}

/// The ballots that name one of the first `c` candidates first have no more
/// strength together than all the ballots have.
proof fn lemma_counted_strength_is_bounded(ids: Seq<usize>, votes: Seq<VoteView>, c: int, n: int)
    requires
        0 <= n <= votes.len(),
        forall|b: int| 0 <= b < votes.len() ==> (#[trigger] votes[b]).strength <= FULL_STRENGTH,
    ensures
        counted_strength(ids, votes, c, n) <= n * FULL_STRENGTH,
    decreases n,
{
    if n > 0 {
        lemma_counted_strength_is_bounded(ids, votes, c, n - 1);
        assert(votes[n - 1].strength <= FULL_STRENGTH);
    }
}

/// The tallies of the first `c` candidates, in full votes, are covered by
/// the strength that the ballots lend them.
proof fn lemma_tallies_are_covered(ids: Seq<usize>, votes: Seq<VoteView>, c: int)
    ensures
        tally_sum(ids, votes, c) * FULL_STRENGTH <= total_weight(ids, votes, c, votes.len() as int),
    decreases c,
{
    if c > 0 {
        lemma_tallies_are_covered(ids, votes, c - 1);
        let w = weight_upto(ids, votes, c - 1, votes.len() as int);
        assert((w / (FULL_STRENGTH as nat)) * FULL_STRENGTH <= w);
    }
}

/// The tallies of a round never add up to more than there are ballots: no
/// ballot counts for more than the one full vote that it began with.
pub proof fn law_tallies_never_exceed_ballots(ids: Seq<usize>, votes: Seq<VoteView>, c: int)
    requires
        forall|b: int| 0 <= b < votes.len() ==> (#[trigger] votes[b]).strength <= FULL_STRENGTH,
    ensures
        tally_sum(ids, votes, c) <= votes.len(),
{
    let n = votes.len() as int;
    lemma_tallies_are_covered(ids, votes, c);
    law_every_ballot_counts_once(ids, votes, c, n);
    lemma_counted_strength_is_bounded(ids, votes, c, n);
}

/// A ballot on which no candidate and no rank occurs twice stays so however
/// many steps are taken.
pub proof fn law_valid_ballots_stay_valid_for_good(s: ElectionView, n: nat, b: int)
    requires
        0 <= b < s.votes.len(),
        is_valid(s.votes[b].queue),
    ensures
        is_valid(s.after(n).votes[b].queue),
    decreases n,
{
    if n > 0 {
        law_valid_ballots_stay_valid_for_good(s, (n - 1) as nat, b);
        law_strength_never_grows_for_good(s, (n - 1) as nat, b);
        law_valid_ballots_stay_valid(s.after((n - 1) as nat), b);
    }
}

/// The count is over exactly when no seat is left or no candidate is in
/// the count: then, and only then, a step reports nothing.
pub proof fn law_count_ends_exactly_when(s: ElectionView)
    requires
        s.wf(),
    ensures
        s.step().1 is None <==> s.seats_remaining == 0 || !has_live(s.candidates),
{
    if s.seats_remaining > 0 {
        if has_live(s.candidates) {
            law_count_goes_on(s);
        } else if s.sweep_target() is Some {
            lemma_sweep_target_is_live(s);
            assert(!s.candidates[s.sweep_target()->0].eliminated);
        }
    }
}

/// A step that reports nothing changes nothing, so that no later step
/// reports anything either.
pub proof fn law_count_stays_over(s: ElectionView)
    requires
        s.wf(),
        s.step().1 is None,
    ensures
        s.step().0 == s,
        s.step().0.step().1 is None,
{
    law_count_ends_exactly_when(s);
    if s.seats_remaining > 0 && s.sweep_target() is Some {
        lemma_sweep_target_is_live(s);
    }
}

/// Taking the candidate at `c` out of the count leaves one candidate less
/// in it.
proof fn lemma_live_count_drops(before: Seq<CandidateView>, after: Seq<CandidateView>, c: int, n: int)
    requires
        0 <= c,
        0 <= n <= before.len(),
        before.len() == after.len(),
        c < before.len() ==> !before[c].eliminated,
        forall|i: int|
            0 <= i < before.len() ==> (#[trigger] after[i]).eliminated == (i == c
                || before[i].eliminated),
    ensures
        live_count(before, n) == live_count(after, n) + if c < n {
            1nat
        } else {
            0nat
        },
    decreases n,
{
    if n > 0 {
        lemma_live_count_drops(before, after, c, n - 1);
        assert(after[n - 1].eliminated == (n - 1 == c || before[n - 1].eliminated));
    }
}

/// A step that reports something leaves one candidate less in the count,
/// and a step that reports nothing leaves as many.
pub proof fn law_each_report_costs_a_candidate(s: ElectionView)
    requires
        s.wf(),
    ensures
        live_count(s.candidates, s.candidates.len() as int) == live_count(
            s.step().0.candidates,
            s.step().0.candidates.len() as int,
        ) + if s.step().1 is Some {
            1nat
        } else {
            0nat
        },
{
    let n = s.candidates.len() as int;
    if s.step().1 is Some {
        let c = law_report_takes_one_candidate_out(s);
        lemma_live_count_drops(s.candidates, s.step().0.candidates, c, n);
    } else {
        law_count_ends_exactly_when(s);
        assert(s.step().0.candidates == s.candidates);
    }
}

/// However many steps are taken, the reports made and the candidates left
/// in the count add up to the candidates that were in the count at first:
/// there are never more reports than candidates.
pub proof fn law_reports_never_exceed_candidates(s: ElectionView, n: nat)
    requires
        s.wf(),
    ensures
        s.reported(n) + live_count(s.after(n).candidates, s.after(n).candidates.len() as int)
            == live_count(s.candidates, s.candidates.len() as int),
        s.reported(n) <= s.candidates.len(),
    decreases n,
{
    if n > 0 {
        law_reports_never_exceed_candidates(s, (n - 1) as nat);
        law_state_stays_well_formed(s, (n - 1) as nat);
        law_each_report_costs_a_candidate(s.after((n - 1) as nat));
    }
    lemma_live_count_is_bounded(s.candidates, s.candidates.len() as int);
}

/// No more candidates are in the count than there are.
proof fn lemma_live_count_is_bounded(candidates: Seq<CandidateView>, n: int)
    requires
        0 <= n,
    ensures
        live_count(candidates, n) <= n,
    decreases n,
{
    if n > 0 {
        lemma_live_count_is_bounded(candidates, n - 1);
    }
}

/// Which preference of a ballot counts: the first, from `from` on, that
/// names a candidate in the count. It lies in the queue or right behind it,
/// no preference before it names a candidate in the count, and it does so
/// itself if it lies in the queue.
pub proof fn law_first_live_is_first(
    ids: Seq<usize>,
    candidates: Seq<CandidateView>,
    q: Seq<PreferenceView>,
    from: int,
)
    requires
        0 <= from <= q.len(),
    ensures
        from <= first_live_from(ids, candidates, q, from) <= q.len(),
        first_live_from(ids, candidates, q, from) < q.len() ==> is_live_id(
            ids,
            candidates,
            q[first_live_from(ids, candidates, q, from)].candidate,
        ),
        forall|k: int|
            from <= k < first_live_from(ids, candidates, q, from) ==> !is_live_id(
                ids,
                candidates,
                (#[trigger] q[k]).candidate,
            ),
    decreases q.len() - from,
{
    if from < q.len() && !is_live_id(ids, candidates, q[from].candidate) {
        law_first_live_is_first(ids, candidates, q, from + 1);
    }
}

/// A ballot counts for one candidate at most: for the candidate of its
/// first preference that names a candidate in the count, and for none if
/// it has no such preference. That candidate is in the count.
pub proof fn law_ballot_counts_for_first_live_preference(s: ElectionView, b: int)
    requires
        s.wf(),
        0 <= b < s.votes.len(),
    ensures
        ({
            let q = s.votes[b].queue;
            let f = first_live_from(s.ids, s.candidates, q, 0);
            let counted_for = target_of(s.ids, s.cleaned().votes[b]);
            if f < q.len() {
                &&& counted_for matches Some(c)
                &&& 0 <= c < s.candidates.len()
                &&& s.ids[c] == q[f].candidate
                &&& !s.candidates[c].eliminated
            } else {
                counted_for is None
            }
        }),
{
    let q = s.votes[b].queue;
    let f = first_live_from(s.ids, s.candidates, q, 0);
    law_first_live_is_first(s.ids, s.candidates, q, 0);
    if f < q.len() {
        s.ids.index_of_first_ensures(q[f].candidate);
        assert(q.skip(f)[0] == q[f]);
    }
}

/// A bucket holds exactly the ballots that name its candidate first, each
/// once: its entries are places of such ballots, they rise strictly, and
/// every such ballot is among them.
pub proof fn law_bucket_holds_each_ballot_once(
    ids: Seq<usize>,
    votes: Seq<VoteView>,
    c: int,
    n: int,
)
    requires
        0 <= n <= votes.len(),
        n <= usize::MAX,
    ensures
        bucket_of(ids, votes, c, n).len() <= n,
        forall|i: int|
            0 <= i < bucket_of(ids, votes, c, n).len() ==> (#[trigger] bucket_of(
                ids,
                votes,
                c,
                n,
            )[i]) < n && target_of(ids, votes[bucket_of(ids, votes, c, n)[i] as int]) == Some(c),
        forall|i: int, j: int|
            0 <= i < j < bucket_of(ids, votes, c, n).len() ==> bucket_of(ids, votes, c, n)[i]
                < bucket_of(ids, votes, c, n)[j],
        forall|b: int|
            0 <= b < n && target_of(ids, #[trigger] votes[b]) == Some(c) ==> bucket_of(
                ids,
                votes,
                c,
                n,
            ).contains(b as usize),
    decreases n,
{
    if n > 0 {
        law_bucket_holds_each_ballot_once(ids, votes, c, n - 1);
        let before = bucket_of(ids, votes, c, n - 1);
        let bucket = bucket_of(ids, votes, c, n);
        assert forall|b: int|
            0 <= b < n && target_of(ids, #[trigger] votes[b]) == Some(c) implies bucket.contains(
            b as usize,
        ) by {
            if b < n - 1 {
                assert(before.contains(b as usize));
                let i = choose|i: int| 0 <= i < before.len() && before[i] == b as usize;
                assert(bucket[i] == b as usize);
            } else {
                assert(bucket[bucket.len() - 1] == b as usize);
            }
        }
    }
}

/// No ballot is in the buckets of two candidates.
pub proof fn law_buckets_share_no_ballot(
    ids: Seq<usize>,
    votes: Seq<VoteView>,
    c: int,
    d: int,
    n: int,
    b: usize,
)
    requires
        0 <= n <= votes.len(),
        n <= usize::MAX,
        c != d,
        bucket_of(ids, votes, c, n).contains(b),
    ensures
        !bucket_of(ids, votes, d, n).contains(b),
{
    law_bucket_holds_each_ballot_once(ids, votes, c, n);
    law_bucket_holds_each_ballot_once(ids, votes, d, n);
    let first = bucket_of(ids, votes, c, n);
    let second = bucket_of(ids, votes, d, n);
    let i = choose|i: int| 0 <= i < first.len() && first[i] == b;
    assert(target_of(ids, votes[first[i] as int]) == Some(c));
    if second.contains(b) {
        let j = choose|j: int| 0 <= j < second.len() && second[j] == b;
        assert(target_of(ids, votes[second[j] as int]) == Some(d));
    }
}

/// The strength of the ballots in the bucket of a candidate is the strength
/// that the ballots lend to it.
pub proof fn lemma_bucket_weight(ids: Seq<usize>, votes: Seq<VoteView>, c: int, n: int)
    requires
        0 <= n <= votes.len(),
        n <= usize::MAX,
    ensures
        listed_strength(votes, bucket_of(ids, votes, c, n)) == weight_upto(ids, votes, c, n),
    decreases n,
{
    if n > 0 {
        lemma_bucket_weight(ids, votes, c, n - 1);
        let before = bucket_of(ids, votes, c, n - 1);
        if target_of(ids, votes[n - 1]) == Some(c) {
            assert(before.push((n - 1) as usize).drop_last() =~= before);
        }
    }
}

} // verus!
