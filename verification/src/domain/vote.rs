//! Ballots: a queue of ranked preferences and the strength that the ballot
//! still carries.
use std::cmp::Ordering;
use vstd::prelude::*;
use vstd::std_specs::cmp::PartialEqSpecImpl;
use vstd::std_specs::cmp::PartialOrdSpecImpl;

verus! {

/// The strength of a ballot that has not yet helped to elect anyone.
///
/// Strength is counted in whole parts; this many parts are one full vote.
pub const FULL_STRENGTH: u64 = 1_000_000_000_000_000_000;

/// One line of a ballot: a candidate and the rank the voter gave it.
#[derive(Debug, Clone, Copy)]
pub struct VotePreference {
    candidate_id: usize,
    preference: usize,
}

/// The mathematical content of a [`VotePreference`].
pub struct PreferenceView {
    pub candidate: usize,
    pub rank: usize,
}

impl View for VotePreference {
    type V = PreferenceView;

    closed spec fn view(&self) -> PreferenceView {
        PreferenceView { candidate: self.candidate_id, rank: self.preference }
    }
}

/// `a` leaves a ballot strictly before `b`: it has the lower rank, or the
/// same rank and the lower candidate id.
pub open spec fn precedes(a: PreferenceView, b: PreferenceView) -> bool {
    a.rank < b.rank || (a.rank == b.rank && a.candidate < b.candidate)
}

impl VotePreference {
    pub fn new(candidate_id: usize, preference: usize) -> (r: Self)
        ensures
            r@ == (PreferenceView { candidate: candidate_id, rank: preference }),
    {
        VotePreference { candidate_id, preference }
    }

    pub fn candidate_id(&self) -> (r: usize)
        ensures
            r == self@.candidate,
    {
        self.candidate_id
    }

    pub fn preference(&self) -> (r: usize)
        ensures
            r == self@.rank,
    {
        self.preference
    }

    /// Whether this preference leaves a ballot strictly before `other`.
    pub fn comes_before(&self, other: &VotePreference) -> (r: bool)
        ensures
            r == precedes(self@, other@),
    {
        self.preference < other.preference || (self.preference == other.preference
            && self.candidate_id < other.candidate_id)
    }
}

/// Two preferences are equal when they carry the same rank, whatever the
/// candidate.
impl PartialEq for VotePreference {
    fn eq(&self, other: &Self) -> (r: bool) {
        self.preference == other.preference
    }
}

impl PartialEqSpecImpl for VotePreference {
    open spec fn obeys_eq_spec() -> bool {
        true
    }

    open spec fn eq_spec(&self, other: &Self) -> bool {
        self@.rank == other@.rank
    }
}

impl Eq for VotePreference {

}

/// The greater of two preferences is the one that leaves a ballot first.
impl PartialOrd for VotePreference {
    fn partial_cmp(&self, other: &Self) -> (r: Option<Ordering>) {
        if self.comes_before(other) {
            Some(Ordering::Greater)
        } else if other.comes_before(self) {
            Some(Ordering::Less)
        } else {
            Some(Ordering::Equal)
        }
    }
}

impl PartialOrdSpecImpl for VotePreference {
    open spec fn obeys_partial_cmp_spec() -> bool {
        true
    }

    open spec fn partial_cmp_spec(&self, other: &Self) -> Option<Ordering> {
        if precedes(self@, other@) {
            Some(Ordering::Greater)
        } else if precedes(other@, self@) {
            Some(Ordering::Less)
        } else {
            Some(Ordering::Equal)
        }
    }
}

/// Why a ballot is refused.
#[derive(Debug, Clone, Copy, PartialEq, Eq, Structural)]
pub enum VoteError {
    /// The ballot ranks this candidate more than once.
    DuplicateCandidate(usize),
    /// The ballot gives this rank to more than one candidate.
    DuplicateRank(usize),
}

/// The preferences of `q` are in the order in which they leave the ballot.
pub open spec fn is_sorted(q: Seq<PreferenceView>) -> bool {
    forall|i: int, j: int| 0 <= i < j < q.len() ==> !precedes(q[j], q[i])
}

/// Where a new preference `p` goes in the queue `q`: behind every entry that
/// does not leave after it.
pub open spec fn insert_position(q: Seq<PreferenceView>, p: PreferenceView) -> int
    decreases q.len(),
{
    if q.len() == 0 {
        0
    } else if precedes(p, q.last()) {
        insert_position(q.drop_last(), p)
    } else {
        q.len() as int
    }
}

/// No candidate and no rank occurs twice in `q`.
pub open spec fn is_valid(q: Seq<PreferenceView>) -> bool {
    forall|i: int, j: int|
        0 <= i < j < q.len() ==> q[i].candidate != q[j].candidate && q[i].rank != q[j].rank
}

/// The entry at `j` names a candidate that an earlier entry names.
pub open spec fn repeats_candidate(q: Seq<PreferenceView>, j: int) -> bool {
    exists|i: int| 0 <= i < j && q[i].candidate == q[j].candidate
}

/// The entry at `j` carries a rank that an earlier entry carries.
pub open spec fn repeats_rank(q: Seq<PreferenceView>, j: int) -> bool {
    exists|i: int| 0 <= i < j && q[i].rank == q[j].rank
}

/// What is wrong with the entry at `j`, given the entries before it.
pub open spec fn flaw_at(q: Seq<PreferenceView>, j: int) -> Option<VoteError> {
    if repeats_candidate(q, j) {
        Some(VoteError::DuplicateCandidate(q[j].candidate))
    } else if repeats_rank(q, j) {
        Some(VoteError::DuplicateRank(q[j].rank))
    } else {
        None
    }
}

/// The flaw of the first flawed entry among the first `n` entries of `q`.
pub open spec fn first_flaw(q: Seq<PreferenceView>, n: int) -> Option<VoteError>
    decreases n,
{
    if n <= 0 {
        None
    } else {
        match first_flaw(q, n - 1) {
            Some(e) => Some(e),
            None => flaw_at(q, n - 1),
        }
    }
}

/// The share `numerator / denominator` of `parts`, rounded up to a whole
/// part. A zero denominator leaves the parts as they are.
pub open spec fn scaled(parts: nat, numerator: nat, denominator: nat) -> nat {
    if denominator == 0 {
        parts
    } else {
        ((parts * numerator + denominator - 1) / (denominator as int)) as nat
    }
}

/// A share of at most the whole is no more than the whole, and it is nothing
/// only where the parts or the share are nothing. Rounding never loses
/// strength: the share is at least the exact share, and less than one part
/// more.
pub proof fn lemma_scaled_bounds(parts: nat, numerator: nat, denominator: nat)
    requires
        numerator <= denominator,
    ensures
        scaled(parts, numerator, denominator) <= parts,
        denominator > 0 ==> (scaled(parts, numerator, denominator) == 0 <==> (parts == 0
            || numerator == 0)),
        denominator > 0 ==> parts * numerator <= scaled(parts, numerator, denominator)
            * denominator < parts * numerator + denominator,
{
    if denominator > 0 {
        let d = denominator as int;
        let x = parts * numerator + denominator - 1;
        assert(x - d < (x / d) * d <= x) by (nonlinear_arith)
            requires
                d > 0,
        ;
        assert(parts * numerator <= parts * denominator) by (nonlinear_arith)
            requires
                numerator <= denominator,
        ;
        assert(x / d <= parts) by (nonlinear_arith)
            requires
                x <= parts * d + d - 1,
                d > 0,
        ;
        if parts > 0 && numerator > 0 {
            assert(parts * numerator >= 1) by (nonlinear_arith)
                requires
                    parts >= 1,
                    numerator >= 1,
            ;
            assert(x / d >= 1) by (nonlinear_arith)
                requires
                    x >= d,
                    d > 0,
            ;
        } else {
            assert(parts * numerator == 0) by (nonlinear_arith)
                requires
                    parts == 0 || numerator == 0,
            ;
            assert(x / d == 0) by (nonlinear_arith)
                requires
                    x == d - 1,
                    d > 0,
            ;
        }
    }
}

/// From a valid ballot the preferences leave in strictly rising rank, and
/// no candidate leaves twice.
pub proof fn law_valid_queue_leaves_in_rank_order(q: Seq<PreferenceView>, i: int, j: int)
    requires
        is_sorted(q),
        is_valid(q),
        0 <= i < j < q.len(),
    ensures
        q[i].rank < q[j].rank,
        q[i].candidate != q[j].candidate,
{
    assert(!precedes(q[j], q[i]));
}

/// What is left of a valid ballot, after any number of preferences have
/// left it, is valid too, and what is left of a ballot in order is in
/// order.
pub proof fn lemma_rest_of_queue_is_valid(q: Seq<PreferenceView>, k: int)
    requires
        0 <= k <= q.len(),
    ensures
        is_sorted(q) ==> is_sorted(q.skip(k)),
        is_valid(q) ==> is_valid(q.skip(k)),
{
    let r = q.skip(k);
    if is_sorted(q) {
        assert forall|i: int, j: int| 0 <= i < j < r.len() implies !precedes(r[j], r[i]) by {
            assert(!precedes(q[j + k], q[i + k]));
        }
    }
    if is_valid(q) {
        assert forall|i: int, j: int| 0 <= i < j < r.len() implies r[i].candidate
            != r[j].candidate && r[i].rank != r[j].rank by {
            assert(q[i + k].candidate != q[j + k].candidate && q[i + k].rank != q[j + k].rank);
        }
    }
}

/// A ballot is valid exactly when no entry of it is flawed.
pub proof fn lemma_valid_iff_flawless(q: Seq<PreferenceView>, n: int)
    requires
        0 <= n <= q.len(),
    ensures
        first_flaw(q, n) is None <==> is_valid(q.take(n)),
    decreases n,
{
    if n > 0 {
        lemma_valid_iff_flawless(q, n - 1);
        let a = q.take(n - 1);
        let b = q.take(n);
        if first_flaw(q, n) is None {
            assert forall|i: int, j: int| 0 <= i < j < b.len() implies b[i].candidate
                != b[j].candidate && b[i].rank != b[j].rank by {
                if j < n - 1 {
                    assert(a[i] == b[i] && a[j] == b[j]);
                }
            }
        }
        if is_valid(b) {
            assert forall|i: int, j: int| 0 <= i < j < a.len() implies a[i].candidate
                != a[j].candidate && a[i].rank != a[j].rank by {
                assert(a[i] == b[i] && a[j] == b[j]);
            }
            assert(!repeats_candidate(q, n - 1)) by {
                if repeats_candidate(q, n - 1) {
                    let i = choose|i: int| 0 <= i < n - 1 && (#[trigger] q[i]).candidate == q[n - 1].candidate;
                    assert(b[i].candidate == b[n - 1].candidate);
                }
            }
            assert(!repeats_rank(q, n - 1)) by {
                if repeats_rank(q, n - 1) {
                    let i = choose|i: int| 0 <= i < n - 1 && (#[trigger] q[i]).rank == q[n - 1].rank;
                    assert(b[i].rank == b[n - 1].rank);
                }
            }
        }
    }
}

/// One voter's ballot.
#[derive(Debug)]
pub struct Vote {
    strength: u64,
    /// The remaining preferences, the one that leaves first at the end.
    preferences: Vec<VotePreference>,
}

/// The mathematical content of a [`Vote`].
#[verifier::ext_equal]
pub struct VoteView {
    /// The strength that the ballot still carries, in parts of
    /// [`FULL_STRENGTH`].
    pub strength: nat,
    /// The remaining preferences, the one that leaves first at index 0.
    pub queue: Seq<PreferenceView>,
}

impl VoteView {
    /// The strength is at most one full vote and the queue is in order.
    pub open spec fn wf(self) -> bool {
        self.strength <= FULL_STRENGTH && is_sorted(self.queue)
    }

    /// The candidate that the ballot names first.
    pub open spec fn top(self) -> Option<usize> {
        if self.queue.len() > 0 {
            Some(self.queue[0].candidate)
        } else {
            None
        }
    }

    /// The ballot without the preference that it names first.
    pub open spec fn popped(self) -> VoteView {
        VoteView { strength: self.strength, queue: self.queue.skip(1) }
    }
}

impl View for Vote {
    type V = VoteView;

    closed spec fn view(&self) -> VoteView {
        VoteView {
            strength: self.strength as nat,
            queue: Seq::new(
                self.preferences@.len(),
                |i: int| self.preferences@[self.preferences@.len() - 1 - i]@,
            ),
        }
    }
}

impl Vote {
    /// The invariant of a ballot; see [`VoteView::wf`].
    pub open spec fn wf(&self) -> bool {
        self@.wf()
    }

    /// A ballot at full strength with no preferences yet.
    pub fn new() -> (r: Self)
        ensures
            r.wf(),
            r@.strength == FULL_STRENGTH,
            r@.queue == Seq::<PreferenceView>::empty(),
    {
        let r = Vote { strength: FULL_STRENGTH, preferences: Vec::new() };
        assert(r@.queue =~= Seq::<PreferenceView>::empty());
        r
    }

    /// The strength that the ballot still carries, in parts of
    /// [`FULL_STRENGTH`].
    pub fn strength(&self) -> (r: u64)
        ensures
            r == self@.strength,
    {
        self.strength
    }

    /// Keeps the share `numerator / denominator` of the strength, rounded up
    /// to a whole part.
    pub fn multiply_strength(&mut self, numerator: usize, denominator: usize)
        requires
            numerator <= denominator,
            denominator > 0,
        ensures
            final(self)@.strength == scaled(
                old(self)@.strength,
                numerator as nat,
                denominator as nat,
            ),
            final(self)@.strength <= old(self)@.strength,
            final(self)@.strength > 0 <==> old(self)@.strength > 0 && numerator > 0,
            final(self)@.queue == old(self)@.queue,
    {
        let p: u128 = self.strength as u128;
        let n: u128 = numerator as u128;
        let d: u128 = denominator as u128;
        proof {
            lemma_scaled_bounds(p as nat, n as nat, d as nat);
            assert(p * n <= p * d) by (nonlinear_arith)
                requires
                    n <= d,
            ;
            assert(p * d <= 0xffff_ffff_ffff_ffff * 0xffff_ffff_ffff_ffff) by (nonlinear_arith)
                requires
                    p <= 0xffff_ffff_ffff_ffff,
                    d <= 0xffff_ffff_ffff_ffff,
            ;
        }
        let q: u128 = (p * n + (d - 1)) / d;
        self.strength = q as u64;
    }

    /// Adds a preference to the ballot, behind every preference that does not
    /// leave after it.
    pub fn push(&mut self, v: VotePreference)
        ensures
            final(self)@.strength == old(self)@.strength,
            final(self)@.queue == old(self)@.queue.insert(
                insert_position(old(self)@.queue, v@),
                v@,
            ),
            0 <= insert_position(old(self)@.queue, v@) <= old(self)@.queue.len(),
            old(self).wf() ==> final(self).wf(),
    {
        let n = self.preferences.len();
        let ghost q = self@.queue;
        let mut j: usize = 0;
        assert(q.take(n as int) =~= q);
        while j < n && v.comes_before(&self.preferences[j])
            invariant
                j <= n,
                n == self.preferences@.len(),
                q == self@.queue,
                *self == *old(self),
                forall|k: int| 0 <= k < j ==> precedes(v@, #[trigger] self.preferences@[k]@),
                insert_position(q, v@) == insert_position(q.take(n - j), v@),
            decreases n - j,
        {
            proof {
                let m = n - j;
                assert(q.take(m).last() == self.preferences@[j as int]@);
                assert(q.take(m).drop_last() =~= q.take(m - 1));
            }
            j += 1;
        }
        proof {
            let m = n - j;
            if j < n {
                assert(q.take(m).last() == self.preferences@[j as int]@);
            }
            assert(insert_position(q, v@) == m);
        }
        self.preferences.insert(j, v);
        proof {
            let k = n - j;
            let r = self@.queue;
            assert(r =~= q.insert(k, v@));
            if old(self).wf() {
                assert forall|a: int, b: int| 0 <= a < b < r.len() implies !precedes(
                    r[b],
                    r[a],
                ) by {
                    if a < k && b > k {
                        assert(!precedes(q[b - 1], q[a]));
                    } else if a < k && b < k {
                        assert(!precedes(q[b], q[a]));
                    } else if a > k {
                        assert(!precedes(q[b - 1], q[a - 1]));
                    } else if a == k {
                        assert(r[b] == q[b - 1]);
                        assert(q[b - 1] == old(self).preferences@[n - b]@);
                    } else {
                        assert(b == k);
                        if j < n {
                            assert(q[k - 1] == old(self).preferences@[j as int]@);
                            assert(!precedes(q[k - 1], q[a]) || a == k - 1);
                        }
                    }
                }
            }
        }
    }

    /// Takes the first preference off the ballot and returns its candidate.
    pub fn pop(&mut self) -> (r: Option<usize>)
        ensures
            r == old(self)@.top(),
            final(self)@ == (if r is Some {
                old(self)@.popped()
            } else {
                old(self)@
            }),
            old(self).wf() ==> final(self).wf(),
    {
        let ghost q = self@.queue;
        match self.preferences.pop() {
            Some(p) => {
                proof {
                    assert(self@.queue =~= q.skip(1));
                    assert(self@ =~= old(self)@.popped());
                    if old(self).wf() {
                        assert forall|a: int, b: int|
                            0 <= a < b < self@.queue.len() implies !precedes(
                            self@.queue[b],
                            self@.queue[a],
                        ) by {
                            assert(!precedes(q[b + 1], q[a + 1]));
                        }
                    }
                }
                Some(p.candidate_id())
            },
            None => None,
        }
    }

    /// The candidate that the ballot names first.
    pub fn peek(&self) -> (r: Option<usize>)
        ensures
            r == self@.top(),
    {
        let n = self.preferences.len();
        if n == 0 {
            None
        } else {
            Some(self.preferences[n - 1].candidate_id())
        }
    }

    /// Makes sure that no candidate and no rank occurs twice on the ballot.
    ///
    /// The entries are read in the order in which they would leave the
    /// ballot; the first one that repeats a candidate or, failing that, a
    /// rank of an earlier entry is reported.
    pub fn validate(&self) -> (r: Result<(), VoteError>)
        ensures
            r is Ok <==> is_valid(self@.queue),
            r == (match first_flaw(self@.queue, self@.queue.len() as int) {
                Some(e) => Err::<(), VoteError>(e),
                None => Ok(()),
            }),
    {
        let n = self.preferences.len();
        let ghost q = self@.queue;
        proof {
            lemma_valid_iff_flawless(q, n as int);
            assert(q.take(n as int) =~= q);
        }
        let mut j: usize = 0;
        while j < n
            invariant
                j <= n,
                n == self.preferences@.len(),
                q == self@.queue,
                first_flaw(q, j as int) is None,
            decreases n - j,
        {
            let entry = self.preferences[n - 1 - j];
            assert(entry@ == q[j as int]);
            let mut i: usize = 0;
            while i < j
                invariant
                    i <= j < n,
                    n == self.preferences@.len(),
                    q == self@.queue,
                    entry@ == q[j as int],
                    first_flaw(q, j as int) is None,
                    forall|k: int| 0 <= k < i ==> q[k].candidate != q[j as int].candidate,
                decreases j - i,
            {
                if self.preferences[n - 1 - i].candidate_id() == entry.candidate_id() {
                    assert(q[i as int].candidate == q[j as int].candidate);
                    assert(repeats_candidate(q, j as int));
                    proof {
                        lemma_flaw_persists(q, j as int + 1, n as int);
                    }
                    return Err(VoteError::DuplicateCandidate(entry.candidate_id()));
                }
                i += 1;
            }
            assert(!repeats_candidate(q, j as int));
            let mut i: usize = 0;
            while i < j
                invariant
                    i <= j < n,
                    n == self.preferences@.len(),
                    q == self@.queue,
                    entry@ == q[j as int],
                    first_flaw(q, j as int) is None,
                    !repeats_candidate(q, j as int),
                    forall|k: int| 0 <= k < i ==> q[k].rank != q[j as int].rank,
                decreases j - i,
            {
                if self.preferences[n - 1 - i].preference() == entry.preference() {
                    assert(q[i as int].rank == q[j as int].rank);
                    assert(repeats_rank(q, j as int));
                    proof {
                        lemma_flaw_persists(q, j as int + 1, n as int);
                    }
                    return Err(VoteError::DuplicateRank(entry.preference()));
                }
                i += 1;
            }
            assert(!repeats_rank(q, j as int));
            j += 1;
        }
        Ok(())
    }
}

/// A flaw found among the first `m` entries is still the first flaw among
/// the first `n`.
proof fn lemma_flaw_persists(q: Seq<PreferenceView>, m: int, n: int)
    requires
        0 <= m <= n,
        first_flaw(q, m) is Some,
    ensures
        first_flaw(q, n) == first_flaw(q, m),
    decreases n - m,
{
    if m < n {
        lemma_flaw_persists(q, m, n - 1);
    }
}

} // verus!
