use voteinator::domain::vote::Vote;
use voteinator::domain::vote::VoteError;
use voteinator::domain::vote::VotePreference;
use voteinator::domain::vote::FULL_STRENGTH;

#[test]
fn ensure_ordering_of_preferences_is_reverse_of_number_ordering() {
    let a = VotePreference::new(1, 1);
    let b = VotePreference::new(1, 2);
    assert!(a > b);
}

#[test]
fn preference_keeps_candidate_and_rank() {
    let p = VotePreference::new(7, 3);
    assert_eq!(p.candidate_id(), 7);
    assert_eq!(p.preference(), 3);
}

#[test]
fn preferences_with_one_rank_are_equal_whatever_the_candidate() {
    assert!(VotePreference::new(1, 4) == VotePreference::new(2, 4));
    assert!(VotePreference::new(1, 4) != VotePreference::new(1, 5));
}

#[test]
fn equal_ranks_are_ordered_by_candidate() {
    let low = VotePreference::new(1, 2);
    let high = VotePreference::new(9, 2);
    assert!(low > high);
    assert!(high < low);
    assert!(low.comes_before(&high));
    assert!(!high.comes_before(&low));
    assert!(!low.comes_before(&low));
}

#[test]
fn new_vote_has_full_strength_and_no_preference() {
    let mut v = Vote::new();
    assert_eq!(v.strength(), FULL_STRENGTH);
    assert_eq!(v.strength(), 1_000_000_000_000_000_000);
    assert_eq!(v.peek(), None);
    assert_eq!(v.pop(), None);
    assert_eq!(v.validate(), Ok(()));
}

#[test]
fn preferences_leave_by_rising_rank() {
    let mut v = Vote::new();
    v.push(VotePreference::new(30, 3));
    v.push(VotePreference::new(10, 1));
    v.push(VotePreference::new(40, 4));
    v.push(VotePreference::new(20, 2));
    assert_eq!(v.peek(), Some(10));
    assert_eq!(v.pop(), Some(10));
    assert_eq!(v.peek(), Some(20));
    assert_eq!(v.pop(), Some(20));
    assert_eq!(v.pop(), Some(30));
    assert_eq!(v.pop(), Some(40));
    assert_eq!(v.pop(), None);
    assert_eq!(v.peek(), None);
}

#[test]
fn preferences_of_one_rank_leave_by_rising_candidate() {
    let mut v = Vote::new();
    v.push(VotePreference::new(5, 1));
    v.push(VotePreference::new(3, 1));
    v.push(VotePreference::new(4, 1));
    v.push(VotePreference::new(9, 0));
    assert_eq!(v.pop(), Some(9));
    assert_eq!(v.pop(), Some(3));
    assert_eq!(v.pop(), Some(4));
    assert_eq!(v.pop(), Some(5));
}

#[test]
fn push_after_pop_keeps_the_order() {
    let mut v = Vote::new();
    v.push(VotePreference::new(1, 5));
    v.push(VotePreference::new(2, 7));
    assert_eq!(v.pop(), Some(1));
    v.push(VotePreference::new(3, 6));
    v.push(VotePreference::new(4, 8));
    assert_eq!(v.pop(), Some(3));
    assert_eq!(v.pop(), Some(2));
    assert_eq!(v.pop(), Some(4));
}

#[test]
fn vote_with_distinct_lines_is_valid() {
    let mut v = Vote::new();
    v.push(VotePreference::new(1, 2));
    v.push(VotePreference::new(2, 1));
    v.push(VotePreference::new(3, 3));
    assert_eq!(v.validate(), Ok(()));
}

#[test]
fn vote_with_a_candidate_twice_is_refused() {
    let mut v = Vote::new();
    v.push(VotePreference::new(1, 1));
    v.push(VotePreference::new(2, 2));
    v.push(VotePreference::new(1, 3));
    assert_eq!(v.validate(), Err(VoteError::DuplicateCandidate(1)));
}

#[test]
fn vote_with_a_rank_twice_is_refused() {
    let mut v = Vote::new();
    v.push(VotePreference::new(1, 1));
    v.push(VotePreference::new(2, 2));
    v.push(VotePreference::new(3, 2));
    assert_eq!(v.validate(), Err(VoteError::DuplicateRank(2)));
}

#[test]
fn the_first_flawed_line_is_reported_and_the_candidate_first() {
    let mut v = Vote::new();
    v.push(VotePreference::new(1, 1));
    v.push(VotePreference::new(2, 2));
    v.push(VotePreference::new(3, 3));
    v.push(VotePreference::new(3, 3));
    v.push(VotePreference::new(1, 4));
    assert_eq!(v.validate(), Err(VoteError::DuplicateCandidate(3)));
    let mut w = Vote::new();
    w.push(VotePreference::new(1, 1));
    w.push(VotePreference::new(2, 1));
    w.push(VotePreference::new(1, 2));
    assert_eq!(w.validate(), Err(VoteError::DuplicateRank(1)));
}

#[test]
fn strength_is_multiplied_exactly() {
    let mut v = Vote::new();
    v.multiply_strength(2, 5);
    assert_eq!(v.strength(), 400_000_000_000_000_000);
    v.multiply_strength(1, 2);
    assert_eq!(v.strength(), 200_000_000_000_000_000);
    v.multiply_strength(7, 7);
    assert_eq!(v.strength(), 200_000_000_000_000_000);
}

#[test]
fn strength_is_rounded_up() {
    let mut v = Vote::new();
    v.multiply_strength(1, 3);
    assert_eq!(v.strength(), 333_333_333_333_333_334);
    v.multiply_strength(1, 3);
    assert_eq!(v.strength(), 111_111_111_111_111_112);
}

#[test]
fn strength_never_grows_and_stays_positive_for_positive_shares() {
    let mut v = Vote::new();
    let mut last = v.strength();
    for k in 1..200usize {
        v.multiply_strength(k, k + 1);
        assert!(v.strength() <= last);
        assert!(v.strength() > 0);
        assert!(v.strength() <= FULL_STRENGTH);
        last = v.strength();
    }
    for _ in 0..100 {
        v.multiply_strength(1, usize::MAX);
        assert!(v.strength() > 0);
    }
    assert_eq!(v.strength(), 1);
}

#[test]
fn a_share_of_nothing_uses_the_strength_up() {
    let mut v = Vote::new();
    v.push(VotePreference::new(1, 1));
    v.multiply_strength(0, 4);
    assert_eq!(v.strength(), 0);
    assert_eq!(v.peek(), Some(1));
    v.multiply_strength(1, 1);
    assert_eq!(v.strength(), 0);
}
