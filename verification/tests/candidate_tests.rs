use std::cmp::Ordering;
use voteinator::domain::candidate::HistoryOrder;
use voteinator::domain::Candidate;
use voteinator::domain::Restriction;

fn candidate_with(index: usize, history: &[usize]) -> Candidate {
    let mut c = Candidate::new(index);
    for tally in history {
        c.add_prev_voting_power(*tally);
    }
    c
}

#[test]
fn new_candidate_is_in_the_count() {
    let c = Candidate::new(4);
    assert_eq!(c.interned_id(), 4);
    assert!(!c.is_eliminated());
    assert_eq!(c.group(), None);
    assert!(c.previous_vote_powers().is_empty());
}

#[test]
fn eliminate_is_idempotent() {
    let mut c = Candidate::new(0);
    c.eliminate();
    assert!(c.is_eliminated());
    c.eliminate();
    assert!(c.is_eliminated());
    assert_eq!(c.interned_id(), 0);
}

#[test]
fn a_group_is_assigned_once() {
    let mut c = Candidate::new(0);
    assert_eq!(c.insert_group(3), Ok(()));
    assert_eq!(c.group(), Some(3));
    assert_eq!(c.insert_group(5), Err("Group already assigned"));
    assert_eq!(c.group(), Some(3));
    assert_eq!(c.insert_group(3), Err("Group already assigned"));
}

#[test]
fn tallies_are_recorded_in_order() {
    let c = candidate_with(1, &[4, 0, 9]);
    assert_eq!(c.previous_vote_powers(), &vec![4, 0, 9]);
}

#[test]
fn the_first_difference_decides() {
    let a = candidate_with(0, &[3, 1, 9]);
    let b = candidate_with(1, &[3, 2, 0]);
    assert_eq!(a.compare_history(&b), HistoryOrder::Lower);
    assert_eq!(b.compare_history(&a), HistoryOrder::Higher);
    assert_eq!(a.partial_cmp(&b), Some(Ordering::Less));
    assert_eq!(b.partial_cmp(&a), Some(Ordering::Greater));
    assert!(a < b);
    assert!(b > a);
}

#[test]
fn equal_histories_are_incomparable() {
    let a = candidate_with(0, &[3, 1]);
    let b = candidate_with(1, &[3, 1]);
    assert_eq!(a.compare_history(&b), HistoryOrder::Incomparable);
    assert_eq!(a.partial_cmp(&b), None);
    assert!(!(a < b));
    assert!(!(a > b));
    assert!(!(a <= b));
    assert!(!(a >= b));
    assert!(a != b);
    assert_eq!(b.partial_cmp(&a), None);
}

#[test]
fn a_history_and_its_beginning_are_incomparable() {
    let a = candidate_with(0, &[3, 1]);
    let b = candidate_with(1, &[3, 1, 7]);
    let none = candidate_with(2, &[]);
    assert_eq!(a.compare_history(&b), HistoryOrder::Incomparable);
    assert_eq!(b.compare_history(&a), HistoryOrder::Incomparable);
    assert_eq!(none.compare_history(&a), HistoryOrder::Incomparable);
    assert_eq!(none.compare_history(&none), HistoryOrder::Incomparable);
}

#[test]
fn candidates_are_equal_by_their_place() {
    let a = candidate_with(2, &[1]);
    let b = candidate_with(2, &[5]);
    let c = candidate_with(3, &[1]);
    assert!(a == b);
    assert!(a != c);
    assert_eq!(a.partial_cmp(&b), Some(Ordering::Less));
}

#[test]
fn no_two_candidates_compare_as_equal() {
    let a = candidate_with(2, &[1, 4]);
    let same_place = candidate_with(2, &[1, 4]);
    let other_place = candidate_with(3, &[1, 4]);
    let fresh = candidate_with(2, &[]);
    assert_eq!(a.partial_cmp(&a), None);
    assert_eq!(a.partial_cmp(&same_place), None);
    assert_eq!(a.partial_cmp(&other_place), None);
    assert_eq!(fresh.partial_cmp(&fresh), None);
    assert_eq!(fresh.partial_cmp(&a), None);
    assert!(!(a < a) && !(a <= a) && !(a > a) && !(a >= a));
    assert!(!(a < same_place) && !(a <= same_place) && !(a > same_place) && !(a >= same_place));
    assert!(!(a <= other_place) && !(a >= other_place));
}

#[test]
fn candidates_at_one_place_are_ordered_by_their_histories() {
    let low = candidate_with(2, &[1, 9]);
    let high = candidate_with(2, &[5, 0]);
    assert_eq!(low.partial_cmp(&high), Some(Ordering::Less));
    assert_eq!(high.partial_cmp(&low), Some(Ordering::Greater));
    assert!(low < high && low <= high && high > low && high >= low);
}

#[test]
fn restriction_keeps_what_it_was_given() {
    let r = Restriction::new("north".to_string(), 2, vec![3, 1, 2]);
    assert_eq!(r.group_name(), "north");
    assert_eq!(r.limit(), 2);
    assert_eq!(r.members(), &vec![3, 1, 2]);
    assert_eq!(r.members, vec![3, 1, 2]);
}

#[test]
fn decrement_stops_at_zero() {
    let mut r = Restriction::new("g".to_string(), 2, vec![]);
    r.decrement();
    assert_eq!(r.limit(), 1);
    r.decrement();
    assert_eq!(r.limit(), 0);
    r.decrement();
    assert_eq!(r.limit(), 0);
    assert_eq!(r.group_name(), "g");
}
