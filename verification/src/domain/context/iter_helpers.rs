//! The parts of one round of the count.
use crate::domain::candidate::HistoryOrder;
use crate::domain::context::Context;
use crate::domain::context::laws::law_ballot_counts_for_first_live_preference;
use crate::domain::context::laws::law_bucket_holds_each_ballot_once;
use crate::domain::context::laws::law_first_live_is_first;
use crate::domain::context::laws::lemma_bucket_weight;
use crate::domain::context::model::bucket_of;
use crate::domain::context::model::buckets_match;
use crate::domain::context::model::cleaned_vote;
use crate::domain::context::model::ElectionView;
use crate::domain::context::model::first_live_from;
use crate::domain::context::model::first_live_member_from;
use crate::domain::context::model::index_of;
use crate::domain::context::model::is_live_id;
use crate::domain::context::model::leader_upto;
use crate::domain::context::model::listed_strength;
use crate::domain::context::model::place;
use crate::domain::context::model::snapshot_upto;
use crate::domain::context::model::tally_of;
use crate::domain::context::model::target_of;
use crate::domain::context::model::trailer_upto;
use crate::domain::context::tally_views;
use crate::domain::vote::FULL_STRENGTH;
use crate::domain::vote::scaled;
use crate::domain::vote::VoteView;
use vstd::prelude::*;

verus! {

impl Context {
    /// Whether the candidate with the given id is in the count, and its
    /// place among the candidates if it is.
    pub(super) fn find_live(&self, id: usize) -> (r: Option<usize>)
        requires
            self.wf(),
        ensures
            r is Some <==> is_live_id(self@.ids, self@.candidates, id),
            r matches Some(i) ==> i < self@.candidates.len() && index_of(self@.ids, id) == Some(
                i as int,
            ) && !self@.candidates[i as int].eliminated,
    {
        match self.candidate_ids.find(id) {
            Some(i) => if self.candidates[i].is_eliminated() {
                None
            } else {
                Some(i)
            },
            None => None,
        }
    }

    /// The candidate that is dropped next because its group may elect no
    /// more.
    pub(super) fn sweep_target(&self) -> (r: Option<usize>)
        requires
            self.wf(),
        ensures
            match r {
                Some(c) => self@.sweep_target() == Some(c as int) && c < self@.candidates.len()
                    && !self@.candidates[c as int].eliminated,
                None => self@.sweep_target() is None,
            },
    {
        match self.active_group_elimination {
            None => None,
            Some(group_id) => {
                let members = self.restrictions[group_id].members();
                let n = members.len();
                let mut j: usize = 0;
                while j < n
                    invariant
                        j <= n,
                        n == members@.len(),
                        self.wf(),
                        self@.pending == Some(group_id),
                        members@ == self@.restrictions[group_id as int].members,
                        first_live_member_from(self@.ids, self@.candidates, members@, 0)
                            == first_live_member_from(
                            self@.ids,
                            self@.candidates,
                            members@,
                            j as int,
                        ),
                    decreases n - j,
                {
                    match self.find_live(members[j]) {
                        Some(c) => {
                            assert(first_live_member_from(
                                self@.ids,
                                self@.candidates,
                                members@,
                                j as int,
                            ) == Some(c as int));
                            return Some(c);
                        },
                        None => {},
                    }
                    j += 1;
                }
                None
            },
        }
    }

    /// Drops the next candidate of a group that may elect no more, if there
    /// is one, and returns its place and the group.
    pub(super) fn handle_restrictions(&mut self) -> (r: Option<(usize, usize)>)
        requires
            old(self).wf(),
        ensures
            final(self).wf(),
            match old(self)@.sweep_target() {
                Some(c) => 0 <= c < old(self)@.candidates.len() && r == Some(
                    (c as usize, old(self)@.pending->0),
                ) && final(self)@ == old(self)@.after_sweep(c),
                None => r is None && final(self)@ == old(self)@,
            },
            r matches Some((c, g)) ==> c < old(self)@.candidates.len() && g < old(
                self,
            )@.restrictions.len(),
    {
        let c = match self.sweep_target() {
            Some(c) => c,
            None => {
                return None;
            },
        };
        let group_id = match self.active_group_elimination {
            Some(g) => g,
            None => {
                return None;
            },
        };
        let ghost pre = self@;
        let id = self.candidate_ids.get(c);
        self.candidates[c].eliminate();
        let ghost dropped = pre.without(c as int);
        assert(self@ =~~= dropped);
        let nb = self.votes.len();
        let mut b: usize = 0;
        while b < nb
            invariant
                b <= nb,
                nb == pre.votes.len(),
                pre.wf(),
                self.wf(),
                dropped == pre.without(c as int),
                c < pre.candidates.len(),
                id == pre.ids[c as int],
                self@ == (ElectionView {
                    votes: Seq::new(
                        nb as nat,
                        |k: int|
                            if k < b && pre.votes[k].top() == Some(id) {
                                pre.votes[k].popped()
                            } else {
                                pre.votes[k]
                            },
                    ),
                    ..dropped
                }),
            decreases nb - b,
        {
            let ghost before = self@;
            let ghost votes_before = self.votes@;
            assert(before.votes[b as int] == self.votes@[b as int]@);
            match self.votes[b].peek() {
                Some(top) => {
                    if top == id {
                        self.votes[b].pop();
                    }
                },
                None => {},
            }
            assert(self@.votes[b as int] == self.votes@[b as int]@);
            assert forall|k: int| 0 <= k < nb && k != b implies self@.votes[k]
                == before.votes[k] by {
                assert(self@.votes[k] == self.votes@[k]@);
                assert(before.votes[k] == votes_before[k]@);
            }
            b += 1;
            proof {
                let after = ElectionView {
                    votes: Seq::new(
                        nb as nat,
                        |k: int|
                            if k < b && pre.votes[k].top() == Some(id) {
                                pre.votes[k].popped()
                            } else {
                                pre.votes[k]
                            },
                    ),
                    ..dropped
                };
                assert(self@.votes.len() == nb);
                assert forall|k: int| 0 <= k < nb implies self@.votes[k] == after.votes[k] by {
                    if k == b - 1 {
                        assert(before.votes[k] == pre.votes[k]);
                    } else {
                        assert(self@.votes[k] == before.votes[k]);
                    }
                }
                assert(self@.votes =~= after.votes);
                assert(self@ =~= after);
            }
        }
        if self.sweep_target().is_none() {
            self.active_group_elimination = None;
        }
        proof {
            assert(self@.votes =~= pre.after_sweep(c as int).votes);
            assert(self@ =~= pre.after_sweep(c as int));
        }
        Some((c, group_id))
    }

    /// Takes the preferences for candidates no longer in the count off the
    /// front of one ballot and returns the place of the candidate that the
    /// ballot then names first.
    fn settle_vote(&mut self, b: usize) -> (target: Option<usize>)
        requires
            old(self).wf(),
            b < old(self)@.votes.len(),
        ensures
            final(self).wf(),
            final(self)@ == (ElectionView {
                votes: old(self)@.votes.update(
                    b as int,
                    cleaned_vote(old(self)@.ids, old(self)@.candidates, old(self)@.votes[b as int]),
                ),
                ..old(self)@
            }),
            match target {
                Some(i) => i < final(self)@.ids.len() && target_of(
                    final(self)@.ids,
                    final(self)@.votes[b as int],
                ) == Some(i as int),
                None => target_of(final(self)@.ids, final(self)@.votes[b as int]) is None,
            },
    {
        let ghost pre = self@;
        let ghost q = pre.votes[b as int].queue;
        let ghost mut k: int = 0;
        proof {
            assert(q.skip(0) =~= q);
            assert(self@.votes =~= pre.votes.update(
                b as int,
                VoteView { strength: pre.votes[b as int].strength, queue: q.skip(0) },
            ));
        }
        loop
            invariant
                self.wf(),
                pre.wf(),
                pre == old(self)@,
                b < pre.votes.len(),
                q == pre.votes[b as int].queue,
                0 <= k <= q.len(),
                self@ == (ElectionView {
                    votes: pre.votes.update(
                        b as int,
                        VoteView { strength: pre.votes[b as int].strength, queue: q.skip(k) },
                    ),
                    ..pre
                }),
                first_live_from(pre.ids, pre.candidates, q, 0) == first_live_from(
                    pre.ids,
                    pre.candidates,
                    q,
                    k,
                ),
            decreases q.len() - k,
        {
            assert(self@.votes[b as int] == self.votes@[b as int]@);
            match self.votes[b].peek() {
                None => {
                    return None;
                },
                Some(id) => {
                    assert(id == q[k].candidate);
                    match self.find_live(id) {
                        Some(i) => {
                            return Some(i);
                        },
                        None => {
                            let ghost before = self@;
                            let ghost votes_before = self.votes@;
                            self.votes[b].pop();
                            proof {
                                assert(self@.votes[b as int] == self.votes@[b as int]@);
                                assert forall|j: int|
                                    0 <= j < pre.votes.len() && j != b implies self@.votes[j]
                                    == before.votes[j] by {
                                    assert(self@.votes[j] == self.votes@[j]@);
                                    assert(before.votes[j] == votes_before[j]@);
                                }
                                assert(q.skip(k).skip(1) =~= q.skip(k + 1));
                                assert(before.votes[b as int].queue == q.skip(k));
                                k = k + 1;
                                assert(self@.votes.len() == pre.votes.len());
                                assert(self@.votes[b as int].queue == q.skip(k));
                                assert(self@.votes[b as int] == (VoteView {
                                    strength: pre.votes[b as int].strength,
                                    queue: q.skip(k),
                                }));
                                let goal = pre.votes.update(
                                    b as int,
                                    VoteView {
                                        strength: pre.votes[b as int].strength,
                                        queue: q.skip(k),
                                    },
                                );
                                assert forall|j: int| 0 <= j < pre.votes.len() implies self@.votes[j]
                                    == goal[j] by {
                                    if j != b {
                                        assert(self@.votes[j] == before.votes[j]);
                                    }
                                }
                                assert(self@.votes =~= goal);
                            }
                        },
                    }
                },
            }
        }
    }

    /// The tally pass: cleans every ballot of its leading preferences for
    /// candidates no longer in the count, and puts each ballot that then
    /// names a candidate first into the bucket of that candidate. The
    /// buckets are returned, one for each candidate, by its place.
    ///
    /// A ballot is in one bucket at most and in it once: in that of the
    /// candidate of its first preference that names a candidate in the
    /// count, and in none if it has no such preference. The bucket of a
    /// candidate that has left the count is empty.
    pub fn calculate_votes(&mut self) -> (buckets: Vec<Vec<usize>>)
        requires
            old(self).wf(),
        ensures
            final(self).wf(),
            final(self)@ == old(self)@.cleaned(),
            buckets_match(final(self)@.ids, final(self)@.votes, buckets@),
            buckets@.len() == old(self)@.candidates.len(),
            forall|c: int|
                0 <= c < buckets@.len() && old(self)@.candidates[c].eliminated ==> (
                #[trigger] buckets@[c])@.len() == 0,
            forall|c: int, i: int|
                0 <= c < buckets@.len() && 0 <= i < buckets@[c]@.len() ==> {
                    let b = #[trigger] buckets@[c]@[i];
                    let q = old(self)@.votes[b as int].queue;
                    let f = first_live_from(old(self)@.ids, old(self)@.candidates, q, 0);
                    &&& b < old(self)@.votes.len()
                    &&& f < q.len()
                    &&& old(self)@.ids[c] == q[f].candidate
                },
            forall|b: int|
                0 <= b < old(self)@.votes.len() ==> {
                    let q = (#[trigger] old(self)@.votes[b]).queue;
                    let f = first_live_from(old(self)@.ids, old(self)@.candidates, q, 0);
                    f < q.len() ==> exists|c: int|
                        0 <= c < buckets@.len() && old(self)@.ids[c] == q[f].candidate && (
                        #[trigger] buckets@[c])@.contains(b as usize)
                },
    {
        let ghost pre = self@;
        let ghost goal = pre.cleaned().votes;
        let nb = self.votes.len();
        let nc = self.candidates.len();
        let mut buckets: Vec<Vec<usize>> = Vec::new();
        let mut c: usize = 0;
        while c < nc
            invariant
                c <= nc,
                buckets@.len() == c,
                forall|k: int| 0 <= k < c ==> (#[trigger] buckets@[k])@ == Seq::<usize>::empty(),
            decreases nc - c,
        {
            buckets.push(Vec::new());
            c += 1;
        }
        let mut b: usize = 0;
        proof {
            assert(self@.votes =~= Seq::new(
                nb as nat,
                |k: int|
                    if k < 0 {
                        cleaned_vote(pre.ids, pre.candidates, pre.votes[k])
                    } else {
                        pre.votes[k]
                    },
            ));
        }
        while b < nb
            invariant
                b <= nb,
                nb == pre.votes.len(),
                nc == pre.ids.len(),
                pre.wf(),
                self.wf(),
                goal == pre.cleaned().votes,
                buckets@.len() == nc,
                self@ == (ElectionView {
                    votes: Seq::new(
                        nb as nat,
                        |k: int|
                            if k < b {
                                cleaned_vote(pre.ids, pre.candidates, pre.votes[k])
                            } else {
                                pre.votes[k]
                            },
                    ),
                    ..pre
                }),
                forall|k: int|
                    0 <= k < nc ==> (#[trigger] buckets@[k])@ == bucket_of(
                        pre.ids,
                        goal,
                        k,
                        b as int,
                    ),
            decreases nb - b,
        {
            let ghost before = buckets@;
            let target = self.settle_vote(b);
            assert(self@.votes[b as int] == goal[b as int]);
            match target {
                Some(c) => {
                    buckets[c].push(b);
                    assert(forall|k: int| 0 <= k < nc && k != c ==> buckets@[k] == before[k]);
                },
                None => {},
            }
            b += 1;
            proof {
                assert(self@.votes =~= Seq::new(
                    nb as nat,
                    |k: int|
                        if k < b {
                            cleaned_vote(pre.ids, pre.candidates, pre.votes[k])
                        } else {
                            pre.votes[k]
                        },
                ));
                assert forall|k: int| 0 <= k < nc implies (#[trigger] buckets@[k])@ == bucket_of(
                    pre.ids,
                    goal,
                    k,
                    b as int,
                ) by {
                    assert(before[k]@ == bucket_of(pre.ids, goal, k, b - 1));
                }
            }
        }
        proof {
            assert(self@.votes =~= goal);
            assert forall|c: int|
                0 <= c < buckets@.len() && pre.candidates[c].eliminated implies (
            #[trigger] buckets@[c])@.len() == 0 by {
                law_bucket_holds_each_ballot_once(pre.ids, goal, c, nb as int);
                if buckets@[c]@.len() > 0 {
                    let k = buckets@[c]@[0];
                    law_ballot_counts_for_first_live_preference(pre, k as int);
                    law_first_live_is_first(pre.ids, pre.candidates, pre.votes[k as int].queue, 0);
                }
            }
            assert forall|c: int, i: int|
                0 <= c < buckets@.len() && 0 <= i < buckets@[c]@.len() implies {
                let k = #[trigger] buckets@[c]@[i];
                let q = pre.votes[k as int].queue;
                let f = first_live_from(pre.ids, pre.candidates, q, 0);
                &&& k < pre.votes.len()
                &&& f < q.len()
                &&& pre.ids[c] == q[f].candidate
            } by {
                law_bucket_holds_each_ballot_once(pre.ids, goal, c, nb as int);
                let k = buckets@[c]@[i];
                law_ballot_counts_for_first_live_preference(pre, k as int);
                law_first_live_is_first(pre.ids, pre.candidates, pre.votes[k as int].queue, 0);
            }
            assert forall|k: int| 0 <= k < pre.votes.len() implies {
                let q = (#[trigger] pre.votes[k]).queue;
                let f = first_live_from(pre.ids, pre.candidates, q, 0);
                f < q.len() ==> exists|c: int|
                    0 <= c < buckets@.len() && pre.ids[c] == q[f].candidate && (
                    #[trigger] buckets@[c])@.contains(k as usize)
            } by {
                let q = pre.votes[k].queue;
                let f = first_live_from(pre.ids, pre.candidates, q, 0);
                if f < q.len() {
                    law_ballot_counts_for_first_live_preference(pre, k);
                    let c = target_of(pre.ids, goal[k])->0;
                    law_bucket_holds_each_ballot_once(pre.ids, goal, c, nb as int);
                    assert(buckets@[c]@.contains(k as usize));
                }
            }
        }
        buckets
    }

    /// The tally of the ballots at the listed places: their strength, added
    /// up and rounded down to whole votes. It is no more than the number of
    /// places listed, and zero for none.
    pub fn sum_votes(&self, votes: &Vec<usize>) -> (r: usize)
        requires
            self.wf(),
            forall|i: int| 0 <= i < votes@.len() ==> (#[trigger] votes@[i]) < self@.votes.len(),
        ensures
            r == listed_strength(self@.votes, votes@) / (FULL_STRENGTH as nat),
            r <= votes@.len(),
    {
        let n = votes.len();
        let mut sum: u128 = 0;
        let mut i: usize = 0;
        proof {
            assert(votes@.take(0) =~= Seq::empty());
        }
        while i < n
            invariant
                i <= n,
                n == votes@.len(),
                self.wf(),
                forall|k: int| 0 <= k < votes@.len() ==> (#[trigger] votes@[k]) < self@.votes.len(),
                sum == listed_strength(self@.votes, votes@.take(i as int)),
                sum <= i * FULL_STRENGTH,
            decreases n - i,
        {
            let b = votes[i];
            assert(votes@[i as int] < self@.votes.len());
            assert(self@.votes[b as int] == self.votes@[b as int]@);
            assert(self@.votes[b as int].wf());
            proof {
                assert(votes@.take(i + 1).drop_last() =~= votes@.take(i as int));
                assert(votes@.take(i + 1).last() == b);
            }
            sum = sum + self.votes[b].strength() as u128;
            i += 1;
        }
        proof {
            assert(votes@.take(n as int) =~= votes@);
        }
        let whole: u128 = sum / (FULL_STRENGTH as u128);
        whole as usize
    }

    /// The tally of every candidate: that of the ballots in its bucket.
    pub(super) fn sum_buckets(&self, buckets: &Vec<Vec<usize>>) -> (tallies: Vec<usize>)
        requires
            self.wf(),
            buckets_match(self@.ids, self@.votes, buckets@),
        ensures
            tallies@ == self@.tallies(),
    {
        let nc = self.candidates.len();
        let ghost nb = self@.votes.len() as int;
        let mut tallies: Vec<usize> = Vec::new();
        let mut c: usize = 0;
        while c < nc
            invariant
                c <= nc,
                nc == self@.candidates.len(),
                nb == self@.votes.len(),
                self.wf(),
                buckets_match(self@.ids, self@.votes, buckets@),
                tallies@.len() == c,
                forall|k: int|
                    0 <= k < c ==> #[trigger] tallies@[k] == tally_of(
                        self@.ids,
                        self@.votes,
                        k,
                    ) as usize,
            decreases nc - c,
        {
            proof {
                law_bucket_holds_each_ballot_once(self@.ids, self@.votes, c as int, nb);
                lemma_bucket_weight(self@.ids, self@.votes, c as int, nb);
                assert(buckets@[c as int]@ == bucket_of(self@.ids, self@.votes, c as int, nb));
            }
            let tally = self.sum_votes(&buckets[c]);
            tallies.push(tally);
            c += 1;
        }
        assert(tallies@ =~= self@.tallies());
        tallies
    }

    /// Whether the ballot at `b` names the candidate at `c` first.
    fn counts_for(&self, b: usize, c: usize) -> (r: bool)
        requires
            self.wf(),
            b < self@.votes.len(),
        ensures
            r == (target_of(self@.ids, self@.votes[b as int]) == Some(c as int)),
    {
        assert(self@.votes[b as int] == self.votes@[b as int]@);
        match self.votes[b].peek() {
            Some(id) => match self.candidate_ids.find(id) {
                Some(i) => i == c,
                None => false,
            },
            None => false,
        }
    }

    /// Name and tally of every candidate that is in the count.
    pub(super) fn create_vote_map(&self, tallies: &Vec<usize>) -> (snapshot: Vec<(String, usize)>)
        requires
            self.wf(),
            tallies@.len() == self@.candidates.len(),
        ensures
            tally_views(snapshot@) == self@.snapshot(tallies@),
    {
        let nc = self.candidates.len();
        let mut snapshot: Vec<(String, usize)> = Vec::new();
        let mut i: usize = 0;
        assert(tally_views(snapshot@) =~= Seq::empty());
        while i < nc
            invariant
                i <= nc,
                self.wf(),
                nc == self@.candidates.len(),
                tallies@.len() == nc,
                tally_views(snapshot@) == snapshot_upto(
                    self@.candidates,
                    self@.names,
                    tallies@,
                    i as int,
                ),
            decreases nc - i,
        {
            assert(self@.candidates[i as int] == self.candidates@[i as int]@);
            assert(self@.names[i as int] == self.candidate_names@[i as int]@);
            if !self.candidates[i].is_eliminated() {
                let ghost before = snapshot@;
                let name = self.candidate_names[i].clone();
                snapshot.push((name, tallies[i]));
                assert(tally_views(snapshot@) =~= tally_views(before).push(
                    (self@.names[i as int], tallies@[i as int]),
                ));
            }
            i += 1;
        }
        snapshot
    }

    /// Elects the candidate at `w`: each ballot that names it first lets go
    /// of it and keeps the share of its strength that the quota did not use
    /// up; a seat is taken, and the group of the candidate may elect one
    /// less.
    pub(super) fn elect(&mut self, w: usize, tally: usize)
        requires
            old(self).wf(),
            w < old(self)@.candidates.len(),
            tally >= old(self)@.quota,
            old(self)@.seats_remaining > 0,
        ensures
            final(self).wf(),
            final(self)@ == old(self)@.elect(w as int, tally),
    {
        let ghost pre = self@;
        let quota = self.quota;
        let nb = self.votes.len();
        let mut b: usize = 0;
        proof {
            assert(self@.votes =~= Seq::new(
                nb as nat,
                |k: int|
                    if k < 0 && target_of(pre.ids, pre.votes[k]) == Some(w as int) {
                        VoteView {
                            strength: scaled(
                                pre.votes[k].strength,
                                (tally - quota) as nat,
                                tally as nat,
                            ),
                            queue: pre.votes[k].queue.skip(1),
                        }
                    } else {
                        pre.votes[k]
                    },
            ));
        }
        while b < nb
            invariant
                b <= nb,
                nb == pre.votes.len(),
                pre.wf(),
                self.wf(),
                quota == pre.quota,
                tally >= quota,
                w < pre.candidates.len(),
                self@ == (ElectionView {
                    votes: Seq::new(
                        nb as nat,
                        |k: int|
                            if k < b && target_of(pre.ids, pre.votes[k]) == Some(w as int) {
                                VoteView {
                                    strength: scaled(
                                        pre.votes[k].strength,
                                        (tally - quota) as nat,
                                        tally as nat,
                                    ),
                                    queue: pre.votes[k].queue.skip(1),
                                }
                            } else {
                                pre.votes[k]
                            },
                    ),
                    ..pre
                }),
            decreases nb - b,
        {
            let ghost before = self@;
            let ghost votes_before = self.votes@;
            assert(before.votes[b as int] == self.votes@[b as int]@);
            assert(before.votes[b as int] == pre.votes[b as int]);
            let named = self.counts_for(b, w);
            assert(named == (target_of(pre.ids, pre.votes[b as int]) == Some(w as int)));
            assert(before.votes[b as int].wf());
            if named {
                self.votes[b].pop();
                if tally > 0 {
                    self.votes[b].multiply_strength(tally - quota, tally);
                }
            }
            proof {
                assert(self@.votes[b as int] == self.votes@[b as int]@);
                assert(self@.votes[b as int].wf());
                assert forall|k: int| 0 <= k < nb && k != b implies self@.votes[k]
                    == before.votes[k] by {
                    assert(self@.votes[k] == self.votes@[k]@);
                    assert(before.votes[k] == votes_before[k]@);
                }
                assert forall|k: int| 0 <= k < nb implies (#[trigger] self@.votes[k]).wf() by {
                    if k != b {
                        assert(self@.votes[k] == before.votes[k]);
                    }
                }
            }
            b += 1;
            proof {
                let goal = Seq::new(
                    nb as nat,
                    |k: int|
                        if k < b && target_of(pre.ids, pre.votes[k]) == Some(w as int) {
                            VoteView {
                                strength: scaled(
                                    pre.votes[k].strength,
                                    (tally - quota) as nat,
                                    tally as nat,
                                ),
                                queue: pre.votes[k].queue.skip(1),
                            }
                        } else {
                            pre.votes[k]
                        },
                );
                assert(self@.votes.len() == nb);
                assert forall|k: int| 0 <= k < nb implies self@.votes[k] == goal[k] by {
                    if k != b - 1 {
                        assert(self@.votes[k] == before.votes[k]);
                    }
                }
                assert(self@.votes =~= goal);
            }
        }
        let ghost counted = self@;
        self.candidates[w].eliminate();
        self.seats_remaining -= 1;
        let mut exhausted: Option<usize> = None;
        assert(counted.candidates[w as int] == old(self).candidates@[w as int]@);
        if let Some(group_id) = self.candidates[w].group() {
            assert(pre.restrictions[group_id as int] == self.restrictions@[group_id as int]@);
            self.restrictions[group_id].decrement();
            if self.restrictions[group_id].limit() == 0 {
                exhausted = Some(group_id);
            }
        }
        self.active_group_elimination = exhausted;
        proof {
            let goal = pre.elect(w as int, tally);
            assert(self@.votes =~= goal.votes);
            assert(self@.candidates =~= goal.candidates);
            assert(self@.restrictions =~= goal.restrictions);
            assert(self@ =~= goal);
        }
    }

    /// Drops the candidate at `l` as the last one: each ballot that names it
    /// first lets go of it.
    pub(super) fn drop_last_placed(&mut self, l: usize)
        requires
            old(self).wf(),
            l < old(self)@.candidates.len(),
        ensures
            final(self).wf(),
            final(self)@ == old(self)@.drop_last_placed(l as int),
    {
        let ghost pre = self@;
        self.candidates[l].eliminate();
        self.active_group_elimination = None;
        let ghost dropped = ElectionView { pending: None, ..pre.without(l as int) };
        assert(self@ =~~= dropped);
        let nb = self.votes.len();
        let mut b: usize = 0;
        proof {
            assert(self@.votes =~= Seq::new(
                nb as nat,
                |k: int|
                    if k < 0 && target_of(pre.ids, pre.votes[k]) == Some(l as int) {
                        pre.votes[k].popped()
                    } else {
                        pre.votes[k]
                    },
            ));
        }
        while b < nb
            invariant
                b <= nb,
                nb == pre.votes.len(),
                pre.wf(),
                self.wf(),
                l < pre.candidates.len(),
                dropped == (ElectionView { pending: None, ..pre.without(l as int) }),
                self@ == (ElectionView {
                    votes: Seq::new(
                        nb as nat,
                        |k: int|
                            if k < b && target_of(pre.ids, pre.votes[k]) == Some(l as int) {
                                pre.votes[k].popped()
                            } else {
                                pre.votes[k]
                            },
                    ),
                    ..dropped
                }),
            decreases nb - b,
        {
            let ghost before = self@;
            let ghost votes_before = self.votes@;
            assert(before.votes[b as int] == self.votes@[b as int]@);
            assert(before.votes[b as int] == pre.votes[b as int]);
            let named = self.counts_for(b, l);
            assert(named == (target_of(pre.ids, pre.votes[b as int]) == Some(l as int)));
            if named {
                self.votes[b].pop();
            }
            proof {
                assert(self@.votes[b as int] == self.votes@[b as int]@);
                assert forall|k: int| 0 <= k < nb && k != b implies self@.votes[k]
                    == before.votes[k] by {
                    assert(self@.votes[k] == self.votes@[k]@);
                    assert(before.votes[k] == votes_before[k]@);
                }
            }
            b += 1;
            proof {
                let goal = Seq::new(
                    nb as nat,
                    |k: int|
                        if k < b && target_of(pre.ids, pre.votes[k]) == Some(l as int) {
                            pre.votes[k].popped()
                        } else {
                            pre.votes[k]
                        },
                );
                assert(self@.votes.len() == nb);
                assert forall|k: int| 0 <= k < nb implies self@.votes[k] == goal[k] by {
                    if k != b - 1 {
                        assert(self@.votes[k] == before.votes[k]);
                    }
                }
                assert(self@.votes =~= goal);
            }
        }
        proof {
            let goal = pre.drop_last_placed(l as int);
            assert(self@.votes =~= goal.votes);
            assert(self@ =~= goal);
        }
    }
}

/// The leader and the last of one round, with their tallies.
pub(super) struct WinnerLoserStruct {
    pub biggest_winner: Option<usize>,
    pub biggest_winner_votes: usize,
    pub biggest_loser: Option<usize>,
    pub biggest_loser_votes: usize,
}

impl WinnerLoserStruct {
    /// Puts the tally of this round on the record of every candidate in the
    /// count, and finds the leader and the last among them.
    pub(super) fn calculate_and_set_voting_power(ctx: &mut Context, tallies: &Vec<usize>) -> (r:
        Self)
        requires
            old(ctx).wf(),
            tallies@.len() == old(ctx)@.candidates.len(),
        ensures
            final(ctx).wf(),
            final(ctx)@ == old(ctx)@.recorded(tallies@),
            place(r.biggest_winner) == final(ctx)@.leader(tallies@),
            place(r.biggest_loser) == final(ctx)@.trailer(tallies@),
            r.biggest_winner matches Some(w) ==> w < tallies@.len() && r.biggest_winner_votes
                == tallies@[w as int] && tallies@[w as int] >= old(ctx)@.quota,
            r.biggest_loser matches Some(l) ==> l < tallies@.len() && r.biggest_loser_votes
                == tallies@[l as int],
    {
        let ghost pre = ctx@;
        let ghost goal = pre.recorded(tallies@);
        let nc = ctx.candidates.len();
        let quota = ctx.quota;
        let mut biggest_winner: Option<usize> = None;
        let mut biggest_winner_votes: usize = 0;
        let mut biggest_loser: Option<usize> = None;
        let mut biggest_loser_votes: usize = usize::MAX;
        let mut i: usize = 0;
        proof {
            assert(ctx@.candidates =~= Seq::new(
                nc as nat,
                |k: int|
                    if k < 0 {
                        goal.candidates[k]
                    } else {
                        pre.candidates[k]
                    },
            ));
        }
        while i < nc
            invariant
                i <= nc,
                nc == pre.candidates.len(),
                tallies@.len() == nc,
                pre.wf(),
                ctx.wf(),
                quota == pre.quota,
                goal == pre.recorded(tallies@),
                ctx@ == (ElectionView {
                    candidates: Seq::new(
                        nc as nat,
                        |k: int|
                            if k < i {
                                goal.candidates[k]
                            } else {
                                pre.candidates[k]
                            },
                    ),
                    ..pre
                }),
                place(biggest_winner) == leader_upto(goal.candidates, tallies@, quota, i as int),
                place(biggest_loser) == trailer_upto(goal.candidates, tallies@, quota, i as int),
                biggest_winner matches Some(w) ==> w < i && biggest_winner_votes
                    == tallies@[w as int] && tallies@[w as int] >= quota,
                biggest_loser matches Some(l) ==> l < i && biggest_loser_votes
                    == tallies@[l as int],
            decreases nc - i,
        {
            let ghost before = ctx@;
            let ghost candidates_before = ctx.candidates@;
            assert(before.candidates[i as int] == ctx.candidates@[i as int]@);
            assert(before.candidates[i as int] == pre.candidates[i as int]);
            if !ctx.candidates[i].is_eliminated() {
                let votes = tallies[i];
                ctx.candidates[i].add_prev_voting_power(votes);
                proof {
                    assert(ctx@.candidates[i as int] == ctx.candidates@[i as int]@);
                    assert(ctx@.candidates[i as int] == goal.candidates[i as int]);
                    assert forall|k: int| 0 <= k < nc && k != i implies ctx@.candidates[k]
                        == before.candidates[k] by {
                        assert(ctx@.candidates[k] == ctx.candidates@[k]@);
                        assert(before.candidates[k] == candidates_before[k]@);
                    }
                }
                if votes >= quota {
                    let takes = match biggest_winner {
                        None => true,
                        Some(w) => {
                            assert(ctx@.candidates[w as int] == ctx.candidates@[w as int]@);
                            assert(ctx@.candidates[w as int] == before.candidates[w as int]);
                            assert(ctx@.candidates[w as int] == goal.candidates[w as int]);
                            votes > biggest_winner_votes || (votes == biggest_winner_votes
                                && match ctx.candidates[i].compare_history(&ctx.candidates[w]) {
                                HistoryOrder::Higher => true,
                                _ => false,
                            })
                        },
                    };
                    if takes {
                        biggest_winner_votes = votes;
                        biggest_winner = Some(i);
                    }
                } else {
                    let takes = match biggest_loser {
                        None => true,
                        Some(l) => {
                            assert(ctx@.candidates[l as int] == ctx.candidates@[l as int]@);
                            assert(ctx@.candidates[l as int] == before.candidates[l as int]);
                            assert(ctx@.candidates[l as int] == goal.candidates[l as int]);
                            votes < biggest_loser_votes || (votes == biggest_loser_votes
                                && match ctx.candidates[i].compare_history(&ctx.candidates[l]) {
                                HistoryOrder::Lower => true,
                                _ => false,
                            })
                        },
                    };
                    if takes {
                        biggest_loser_votes = votes;
                        biggest_loser = Some(i);
                    }
                }
            }
            i += 1;
            proof {
                let want = Seq::new(
                    nc as nat,
                    |k: int|
                        if k < i {
                            goal.candidates[k]
                        } else {
                            pre.candidates[k]
                        },
                );
                assert(ctx@.candidates.len() == nc);
                assert forall|k: int| 0 <= k < nc implies ctx@.candidates[k] == want[k] by {
                    if k != i - 1 {
                        assert(ctx@.candidates[k] == before.candidates[k]);
                    }
                }
                assert(ctx@.candidates =~= want);
            }
        }
        proof {
            assert(ctx@.candidates =~= goal.candidates);
        }
        WinnerLoserStruct {
            biggest_winner,
            biggest_winner_votes,
            biggest_loser,
            biggest_loser_votes,
        }
    }
}

} // verus!
