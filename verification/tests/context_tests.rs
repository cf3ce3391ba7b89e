use voteinator::deserialize::VoteEntry;
use voteinator::domain::context::builder::BuildError;
use voteinator::domain::context::builder::ValidationError;
use voteinator::domain::context::Context;
use voteinator::domain::context::ContextBuilder;
use voteinator::domain::context::RoundResult;
use voteinator::domain::vote::VoteError;
use voteinator::domain::Restriction;

fn line(voter: usize, option: usize, name: &str, rank: usize) -> VoteEntry {
    VoteEntry {
        vote_option: option,
        vote_rank: rank,
        user_id: voter,
        vote_option_full: name.to_string(),
    }
}

fn tally(name: &str, votes: usize) -> (String, usize) {
    (name.to_string(), votes)
}

fn run(ctx: &mut Context) -> Vec<RoundResult> {
    let mut all = Vec::new();
    while let Some(result) = ctx.next() {
        all.push(result);
        assert!(all.len() <= 1000);
    }
    all
}

fn scenario_a() -> Context {
    let mut builder = ContextBuilder::new(2);
    for voter in 1..=5 {
        builder.insert_vote(line(voter, 10, "X", 1));
    }
    builder.insert_vote(line(6, 20, "Y", 1));
    builder.finish().unwrap()
}

#[test]
fn scenario_a_elects_x_then_drops_y() {
    let mut ctx = scenario_a();
    assert_eq!(ctx.quota(), 3);
    assert_eq!(ctx.seats_remaining(), 2);
    assert_eq!(
        ctx.next(),
        Some(RoundResult::CandidateSucceeded(
            "X".to_string(),
            5,
            vec![tally("X", 5), tally("Y", 1)]
        ))
    );
    assert_eq!(ctx.seats_remaining(), 1);
    assert_eq!(
        ctx.next(),
        Some(RoundResult::CandidateEliminated("Y".to_string(), vec![tally("Y", 1)]))
    );
    assert_eq!(ctx.seats_remaining(), 1);
    assert_eq!(ctx.next(), None);
    assert_eq!(ctx.next(), None);
    assert_eq!(ctx.seats_remaining(), 1);
    assert_eq!(ctx.quota(), 3);
}

#[test]
fn scenario_b_drops_the_other_member_before_any_count() {
    let mut builder = ContextBuilder::new(2);
    for voter in 1..=3 {
        builder.insert_vote(line(voter, 1, "A", 1));
    }
    for voter in 4..=6 {
        builder.insert_vote(line(voter, 2, "B", 1));
    }
    builder.insert_restriction(Restriction::new("G".to_string(), 1, vec![1, 2]));
    let mut ctx = builder.finish().unwrap();
    assert_eq!(ctx.quota(), 3);
    assert_eq!(
        ctx.next(),
        Some(RoundResult::CandidateSucceeded(
            "A".to_string(),
            3,
            vec![tally("A", 3), tally("B", 3)]
        ))
    );
    assert_eq!(ctx.seats_remaining(), 1);
    assert_eq!(
        ctx.next(),
        Some(RoundResult::CandidateEliminatedByRestriction("B".to_string(), "G".to_string()))
    );
    assert_eq!(ctx.seats_remaining(), 1);
    assert_eq!(ctx.next(), None);
    assert_eq!(ctx.seats_remaining(), 1);
}

#[test]
fn one_seat_is_a_configuration_error() {
    let mut builder = ContextBuilder::new(1);
    builder.insert_vote(line(1, 1, "A", 1));
    assert!(matches!(builder.finish(), Err(BuildError::Configuration)));
    let empty = ContextBuilder::new(0);
    assert!(matches!(empty.finish(), Err(BuildError::Configuration)));
}

#[test]
fn too_few_seats_are_reported_before_a_bad_vote() {
    let mut builder = ContextBuilder::new(1);
    builder.insert_vote(line(1, 1, "A", 1));
    builder.insert_vote(line(1, 2, "B", 1));
    assert!(matches!(builder.finish(), Err(BuildError::Configuration)));
}

#[test]
fn two_candidates_at_one_rank_fail_validation_for_that_voter() {
    let mut builder = ContextBuilder::new(2);
    builder.insert_vote(line(5, 1, "A", 1));
    builder.insert_vote(line(77, 1, "A", 1));
    builder.insert_vote(line(77, 2, "B", 1));
    match builder.finish() {
        Err(e) => assert_eq!(
            e,
            BuildError::Validation(ValidationError::Vote {
                voter: 77,
                error: VoteError::DuplicateRank(1)
            })
        ),
        Ok(_) => panic!("a vote with one rank twice was accepted"),
    }
}

#[test]
fn one_candidate_at_two_ranks_fails_validation_for_that_voter() {
    let mut builder = ContextBuilder::new(2);
    builder.insert_vote(line(8, 3, "C", 1));
    builder.insert_vote(line(9, 3, "C", 2));
    builder.insert_vote(line(9, 3, "C", 1));
    match builder.finish() {
        Err(e) => assert_eq!(
            e,
            BuildError::Validation(ValidationError::Vote {
                voter: 9,
                error: VoteError::DuplicateCandidate(3)
            })
        ),
        Ok(_) => panic!("a vote with one candidate twice was accepted"),
    }
}

#[test]
fn the_first_bad_vote_in_order_of_first_sight_is_reported() {
    let mut builder = ContextBuilder::new(2);
    builder.insert_vote(line(2, 1, "A", 1));
    builder.insert_vote(line(1, 1, "A", 1));
    builder.insert_vote(line(1, 2, "B", 1));
    builder.insert_vote(line(2, 2, "B", 1));
    match builder.finish() {
        Err(e) => assert_eq!(
            e,
            BuildError::Validation(ValidationError::Vote {
                voter: 2,
                error: VoteError::DuplicateRank(1)
            })
        ),
        Ok(_) => panic!("accepted"),
    }
}

#[test]
fn a_restriction_with_an_unknown_member_is_refused() {
    let mut builder = ContextBuilder::new(2);
    builder.insert_vote(line(1, 1, "A", 1));
    builder.insert_restriction(Restriction::new("first".to_string(), 1, vec![1]));
    builder.insert_restriction(Restriction::new("second".to_string(), 1, vec![9, 1]));
    match builder.finish() {
        Err(e) => assert_eq!(
            e,
            BuildError::Validation(ValidationError::UnknownMember { group: 1, member: 9 })
        ),
        Ok(_) => panic!("accepted"),
    }
}

#[test]
fn a_candidate_in_two_groups_is_refused() {
    let mut builder = ContextBuilder::new(2);
    builder.insert_vote(line(1, 1, "A", 1));
    builder.insert_vote(line(1, 2, "B", 2));
    builder.insert_restriction(Restriction::new("first".to_string(), 1, vec![1, 2]));
    builder.insert_restriction(Restriction::new("second".to_string(), 1, vec![2]));
    match builder.finish() {
        Err(e) => assert_eq!(
            e,
            BuildError::Validation(ValidationError::GroupedTwice { group: 1, member: 2 })
        ),
        Ok(_) => panic!("accepted"),
    }
}

#[test]
fn a_candidate_twice_in_one_group_is_refused() {
    let mut builder = ContextBuilder::new(2);
    builder.insert_vote(line(1, 1, "A", 1));
    builder.insert_restriction(Restriction::new("g".to_string(), 1, vec![1, 1]));
    match builder.finish() {
        Err(e) => assert_eq!(
            e,
            BuildError::Validation(ValidationError::GroupedTwice { group: 0, member: 1 })
        ),
        Ok(_) => panic!("accepted"),
    }
}

#[test]
fn a_bad_vote_is_reported_before_a_bad_restriction() {
    let mut builder = ContextBuilder::new(2);
    builder.insert_vote(line(1, 1, "A", 1));
    builder.insert_vote(line(1, 1, "A", 2));
    builder.insert_restriction(Restriction::new("g".to_string(), 1, vec![5]));
    match builder.finish() {
        Err(e) => assert_eq!(
            e,
            BuildError::Validation(ValidationError::Vote {
                voter: 1,
                error: VoteError::DuplicateCandidate(1)
            })
        ),
        Ok(_) => panic!("accepted"),
    }
}

fn quota_for(ballots: usize, seats: usize) -> usize {
    let mut builder = ContextBuilder::new(seats);
    for voter in 0..ballots {
        builder.insert_vote(line(voter, 1, "A", 1));
    }
    builder.finish().unwrap().quota()
}

#[test]
fn quota_is_ballots_by_seats_rounded_up() {
    assert_eq!(quota_for(6, 2), 3);
    assert_eq!(quota_for(7, 2), 4);
    assert_eq!(quota_for(5, 3), 2);
    assert_eq!(quota_for(1, 2), 1);
    assert_eq!(quota_for(9, 3), 3);
    assert_eq!(quota_for(10, 3), 4);
    assert_eq!(quota_for(2, 5), 1);
    assert_eq!(quota_for(0, 2), 0);
}

#[test]
fn a_line_without_rank_makes_a_ballot_and_a_candidate() {
    let mut builder = ContextBuilder::new(2);
    builder.insert_vote(line(1, 1, "A", 0));
    builder.insert_vote(line(2, 2, "B", 0));
    builder.insert_vote(line(3, 1, "A", 1));
    let mut ctx = builder.finish().unwrap();
    assert_eq!(ctx.quota(), 2);
    assert_eq!(ctx.get_name(2), Some("B".to_string()));
    assert_eq!(
        ctx.next(),
        Some(RoundResult::CandidateEliminated(
            "B".to_string(),
            vec![tally("A", 1), tally("B", 0)]
        ))
    );
    assert_eq!(
        ctx.next(),
        Some(RoundResult::CandidateEliminated("A".to_string(), vec![tally("A", 1)]))
    );
    assert_eq!(ctx.next(), None);
    assert_eq!(ctx.seats_remaining(), 2);
}

#[test]
fn the_name_first_seen_stays() {
    let mut builder = ContextBuilder::new(2);
    builder.insert_vote(line(1, 4, "first", 1));
    builder.insert_vote(line(2, 4, "second", 1));
    let ctx = builder.finish().unwrap();
    assert_eq!(ctx.get_name(4), Some("first".to_string()));
    assert_eq!(ctx.get_name(5), None);
}

#[test]
fn an_election_without_records_ends_at_once() {
    let mut ctx = ContextBuilder::new(3).finish().unwrap();
    assert_eq!(ctx.quota(), 0);
    assert_eq!(ctx.next(), None);
    assert_eq!(ctx.seats_remaining(), 3);
}

#[test]
fn the_order_of_the_lines_of_a_voter_does_not_matter() {
    let mut one = ContextBuilder::new(2);
    one.insert_vote(line(1, 1, "A", 1));
    one.insert_vote(line(1, 2, "B", 2));
    one.insert_vote(line(2, 2, "B", 1));
    one.insert_vote(line(2, 1, "A", 2));
    one.insert_vote(line(3, 1, "A", 1));
    let mut other = ContextBuilder::new(2);
    other.insert_vote(line(1, 1, "A", 1));
    other.insert_vote(line(1, 2, "B", 2));
    other.insert_vote(line(2, 1, "A", 2));
    other.insert_vote(line(2, 2, "B", 1));
    other.insert_vote(line(3, 1, "A", 1));
    let mut one = one.finish().unwrap();
    let mut other = other.finish().unwrap();
    assert_eq!(run(&mut one), run(&mut other));
}

#[test]
fn the_surplus_goes_on_at_reduced_strength() {
    let mut builder = ContextBuilder::new(2);
    for voter in 1..=5 {
        builder.insert_vote(line(voter, 10, "X", 1));
        builder.insert_vote(line(voter, 30, "Z", 2));
    }
    builder.insert_vote(line(6, 20, "Y", 1));
    let mut ctx = builder.finish().unwrap();
    assert_eq!(ctx.quota(), 3);
    assert_eq!(
        run(&mut ctx),
        vec![
            RoundResult::CandidateSucceeded(
                "X".to_string(),
                5,
                vec![tally("X", 5), tally("Z", 0), tally("Y", 1)]
            ),
            RoundResult::CandidateEliminated(
                "Y".to_string(),
                vec![tally("Z", 2), tally("Y", 1)]
            ),
            RoundResult::CandidateEliminated("Z".to_string(), vec![tally("Z", 2)]),
        ]
    );
    assert_eq!(ctx.seats_remaining(), 1);
}

#[test]
fn a_tally_is_the_whole_votes_in_the_strength() {
    // Seven ballots elect X with a quota of 4; each keeps 3/7 of its
    // strength, and seven times 3/7 rounded up is a little over 3.
    let mut builder = ContextBuilder::new(2);
    for voter in 1..=7 {
        builder.insert_vote(line(voter, 1, "X", 1));
        builder.insert_vote(line(voter, 2, "Z", 2));
    }
    let mut ctx = builder.finish().unwrap();
    assert_eq!(ctx.quota(), 4);
    assert_eq!(
        run(&mut ctx),
        vec![
            RoundResult::CandidateSucceeded(
                "X".to_string(),
                7,
                vec![tally("X", 7), tally("Z", 0)]
            ),
            RoundResult::CandidateEliminated("Z".to_string(), vec![tally("Z", 3)]),
        ]
    );
}

#[test]
fn a_winner_at_exactly_the_quota_uses_its_ballots_up() {
    let mut builder = ContextBuilder::new(2);
    for voter in 1..=3 {
        builder.insert_vote(line(voter, 1, "X", 1));
        builder.insert_vote(line(voter, 2, "Z", 2));
    }
    for voter in 4..=6 {
        builder.insert_vote(line(voter, 3, "Y", 1));
    }
    let mut ctx = builder.finish().unwrap();
    assert_eq!(ctx.quota(), 3);
    assert_eq!(
        run(&mut ctx),
        vec![
            RoundResult::CandidateSucceeded(
                "X".to_string(),
                3,
                vec![tally("X", 3), tally("Z", 0), tally("Y", 3)]
            ),
            RoundResult::CandidateSucceeded(
                "Y".to_string(),
                3,
                vec![tally("Z", 0), tally("Y", 3)]
            ),
        ]
    );
    assert_eq!(ctx.seats_remaining(), 0);
    assert_eq!(ctx.next(), None);
}

#[test]
fn between_equal_tallies_the_first_seen_leads() {
    let mut builder = ContextBuilder::new(2);
    builder.insert_vote(line(1, 8, "A", 1));
    builder.insert_vote(line(2, 3, "B", 1));
    let mut ctx = builder.finish().unwrap();
    assert_eq!(ctx.quota(), 1);
    assert_eq!(
        run(&mut ctx),
        vec![
            RoundResult::CandidateSucceeded(
                "A".to_string(),
                1,
                vec![tally("A", 1), tally("B", 1)]
            ),
            RoundResult::CandidateSucceeded("B".to_string(), 1, vec![tally("B", 1)]),
        ]
    );
    assert_eq!(ctx.seats_remaining(), 0);
}

#[test]
fn between_equal_tallies_the_first_seen_is_dropped() {
    let mut builder = ContextBuilder::new(2);
    for voter in 1..=2 {
        builder.insert_vote(line(voter, 8, "A", 1));
    }
    for voter in 3..=4 {
        builder.insert_vote(line(voter, 3, "B", 1));
    }
    for voter in 5..=9 {
        builder.insert_vote(line(voter, 5, "C", 0));
    }
    let mut ctx = builder.finish().unwrap();
    assert_eq!(ctx.quota(), 5);
    assert_eq!(
        run(&mut ctx),
        vec![
            RoundResult::CandidateEliminated(
                "C".to_string(),
                vec![tally("A", 2), tally("B", 2), tally("C", 0)]
            ),
            RoundResult::CandidateEliminated(
                "A".to_string(),
                vec![tally("A", 2), tally("B", 2)]
            ),
            RoundResult::CandidateEliminated("B".to_string(), vec![tally("B", 2)]),
        ]
    );
    assert_eq!(ctx.seats_remaining(), 2);
}

#[test]
fn between_equal_tallies_the_higher_history_leads() {
    let mut builder = ContextBuilder::new(2);
    builder.insert_vote(line(1, 1, "A", 1));
    builder.insert_vote(line(2, 1, "A", 1));
    builder.insert_vote(line(3, 2, "B", 1));
    builder.insert_vote(line(4, 2, "B", 1));
    builder.insert_vote(line(5, 2, "B", 1));
    builder.insert_vote(line(6, 3, "C", 1));
    builder.insert_vote(line(6, 1, "A", 2));
    builder.insert_vote(line(7, 4, "D", 1));
    builder.insert_vote(line(7, 1, "A", 2));
    builder.insert_vote(line(8, 4, "D", 1));
    builder.insert_vote(line(8, 2, "B", 2));
    let mut ctx = builder.finish().unwrap();
    assert_eq!(ctx.quota(), 4);
    assert_eq!(
        run(&mut ctx),
        vec![
            RoundResult::CandidateEliminated(
                "C".to_string(),
                vec![tally("A", 2), tally("B", 3), tally("C", 1), tally("D", 2)]
            ),
            RoundResult::CandidateEliminated(
                "D".to_string(),
                vec![tally("A", 3), tally("B", 3), tally("D", 2)]
            ),
            RoundResult::CandidateSucceeded(
                "B".to_string(),
                4,
                vec![tally("A", 4), tally("B", 4)]
            ),
            RoundResult::CandidateSucceeded("A".to_string(), 4, vec![tally("A", 4)]),
        ]
    );
    assert_eq!(ctx.seats_remaining(), 0);
}

#[test]
fn between_equal_tallies_the_lower_history_is_dropped() {
    // A and B tie in the second round; B had less in the first, so B goes
    // although A was seen first.
    let mut builder = ContextBuilder::new(2);
    builder.insert_vote(line(1, 1, "A", 1));
    builder.insert_vote(line(2, 1, "A", 1));
    builder.insert_vote(line(3, 2, "B", 1));
    builder.insert_vote(line(4, 3, "C", 1));
    builder.insert_vote(line(4, 2, "B", 2));
    for voter in 5..=16 {
        builder.insert_vote(line(voter, 4, "D", 0));
    }
    let mut ctx = builder.finish().unwrap();
    assert_eq!(ctx.quota(), 8);
    let results = run(&mut ctx);
    assert_eq!(
        results[0],
        RoundResult::CandidateEliminated(
            "D".to_string(),
            vec![tally("A", 2), tally("B", 1), tally("C", 1), tally("D", 0)]
        )
    );
    assert_eq!(
        results[1],
        RoundResult::CandidateEliminated(
            "B".to_string(),
            vec![tally("A", 2), tally("B", 1), tally("C", 1)]
        )
    );
    assert_eq!(
        results[2],
        RoundResult::CandidateEliminated("C".to_string(), vec![tally("A", 2), tally("C", 1)])
    );
    assert_eq!(
        results[3],
        RoundResult::CandidateEliminated("A".to_string(), vec![tally("A", 2)])
    );
    assert_eq!(results.len(), 4);
}

#[test]
fn ballots_skip_candidates_that_left_the_count() {
    let mut builder = ContextBuilder::new(2);
    builder.insert_vote(line(1, 1, "A", 1));
    builder.insert_vote(line(1, 2, "B", 2));
    builder.insert_vote(line(1, 3, "C", 3));
    builder.insert_vote(line(2, 2, "B", 1));
    builder.insert_vote(line(2, 3, "C", 2));
    builder.insert_vote(line(3, 3, "C", 1));
    builder.insert_vote(line(4, 3, "C", 1));
    for voter in 5..=8 {
        builder.insert_vote(line(voter, 9, "nobody", 0));
    }
    let mut ctx = builder.finish().unwrap();
    assert_eq!(ctx.quota(), 4);
    assert_eq!(
        run(&mut ctx),
        vec![
            RoundResult::CandidateEliminated(
                "nobody".to_string(),
                vec![tally("A", 1), tally("B", 1), tally("C", 2), tally("nobody", 0)]
            ),
            RoundResult::CandidateEliminated(
                "A".to_string(),
                vec![tally("A", 1), tally("B", 1), tally("C", 2)]
            ),
            RoundResult::CandidateEliminated(
                "B".to_string(),
                vec![tally("B", 2), tally("C", 2)]
            ),
            RoundResult::CandidateSucceeded("C".to_string(), 4, vec![tally("C", 4)]),
        ]
    );
    assert_eq!(ctx.seats_remaining(), 1);
}

#[test]
fn an_exhausted_group_loses_its_members_one_with_each_call() {
    let mut builder = ContextBuilder::new(3);
    for voter in 1..=4 {
        builder.insert_vote(line(voter, 1, "A", 1));
    }
    builder.insert_vote(line(5, 2, "B", 1));
    builder.insert_vote(line(6, 3, "C", 1));
    builder.insert_vote(line(6, 4, "D", 2));
    builder.insert_vote(line(7, 4, "D", 1));
    builder.insert_vote(line(8, 4, "D", 1));
    builder.insert_vote(line(9, 4, "D", 1));
    builder.insert_restriction(Restriction::new("G".to_string(), 1, vec![3, 1, 2]));
    let mut ctx = builder.finish().unwrap();
    assert_eq!(ctx.quota(), 3);
    assert_eq!(
        ctx.next(),
        Some(RoundResult::CandidateSucceeded(
            "A".to_string(),
            4,
            vec![tally("A", 4), tally("B", 1), tally("C", 1), tally("D", 3)]
        ))
    );
    assert_eq!(ctx.seats_remaining(), 2);
    assert_eq!(
        ctx.next(),
        Some(RoundResult::CandidateEliminatedByRestriction("C".to_string(), "G".to_string()))
    );
    assert_eq!(ctx.seats_remaining(), 2);
    assert_eq!(
        ctx.next(),
        Some(RoundResult::CandidateEliminatedByRestriction("B".to_string(), "G".to_string()))
    );
    assert_eq!(ctx.seats_remaining(), 2);
    assert_eq!(
        ctx.next(),
        Some(RoundResult::CandidateSucceeded("D".to_string(), 4, vec![tally("D", 4)]))
    );
    assert_eq!(ctx.seats_remaining(), 1);
    assert_eq!(ctx.next(), None);
    assert_eq!(ctx.quota(), 3);
}

#[test]
fn a_group_with_room_left_restricts_nothing() {
    let mut builder = ContextBuilder::new(2);
    for voter in 1..=3 {
        builder.insert_vote(line(voter, 1, "A", 1));
    }
    for voter in 4..=6 {
        builder.insert_vote(line(voter, 2, "B", 1));
    }
    builder.insert_restriction(Restriction::new("G".to_string(), 2, vec![1, 2]));
    let mut ctx = builder.finish().unwrap();
    assert_eq!(
        run(&mut ctx),
        vec![
            RoundResult::CandidateSucceeded(
                "A".to_string(),
                3,
                vec![tally("A", 3), tally("B", 3)]
            ),
            RoundResult::CandidateSucceeded("B".to_string(), 3, vec![tally("B", 3)]),
        ]
    );
    assert_eq!(ctx.seats_remaining(), 0);
}

#[test]
fn the_last_seat_ends_the_count_before_a_pending_group_is_swept() {
    let mut builder = ContextBuilder::new(2);
    for voter in 1..=3 {
        builder.insert_vote(line(voter, 1, "A", 1));
    }
    for voter in 4..=6 {
        builder.insert_vote(line(voter, 2, "B", 1));
    }
    builder.insert_vote(line(7, 3, "C", 0));
    builder.insert_restriction(Restriction::new("G".to_string(), 1, vec![2, 3]));
    let mut ctx = builder.finish().unwrap();
    assert_eq!(ctx.quota(), 4);
    let results = run(&mut ctx);
    assert_eq!(
        results,
        vec![
            RoundResult::CandidateEliminated(
                "C".to_string(),
                vec![tally("A", 3), tally("B", 3), tally("C", 0)]
            ),
            RoundResult::CandidateEliminated(
                "A".to_string(),
                vec![tally("A", 3), tally("B", 3)]
            ),
            RoundResult::CandidateEliminated("B".to_string(), vec![tally("B", 3)]),
        ]
    );
}

#[test]
fn seats_fall_by_one_with_each_winner_and_there_are_no_more_reports_than_candidates() {
    let mut builder = ContextBuilder::new(3);
    let mut voter = 0;
    for option in 1..=6usize {
        for _ in 0..(option * 2) {
            voter += 1;
            builder.insert_vote(line(voter, option, "someone", 1));
            builder.insert_vote(line(voter, (option % 6) + 1, "someone", 2));
        }
    }
    let mut ctx = builder.finish().unwrap();
    let quota = ctx.quota();
    assert_eq!(quota, 14);
    let mut seats = ctx.seats_remaining();
    let mut reports = 0;
    let mut winners = 0;
    while let Some(result) = ctx.next() {
        reports += 1;
        match result {
            RoundResult::CandidateSucceeded(_, votes, snapshot) => {
                assert!(votes >= quota);
                assert!(snapshot.iter().all(|(_, other)| *other <= votes));
                assert_eq!(ctx.seats_remaining(), seats - 1);
                winners += 1;
            }
            RoundResult::CandidateEliminated(_, snapshot) => {
                assert!(snapshot.iter().all(|(_, votes)| *votes < quota));
                assert_eq!(ctx.seats_remaining(), seats);
            }
            RoundResult::CandidateEliminatedByRestriction(_, _) => {
                assert_eq!(ctx.seats_remaining(), seats);
            }
        }
        seats = ctx.seats_remaining();
        assert_eq!(ctx.quota(), quota);
        assert!(reports <= 6);
    }
    assert!(winners <= 3);
    assert_eq!(winners + ctx.seats_remaining(), 3);
}

#[test]
fn equal_records_give_equal_reports() {
    let build = || {
        let mut builder = ContextBuilder::new(2);
        let mut voter = 0;
        for option in [5usize, 3, 9, 1] {
            for k in 0..option {
                voter += 1;
                builder.insert_vote(line(voter, option, "option", 1));
                builder.insert_vote(line(voter, 20 - option, "other", 2 + k));
            }
        }
        builder.insert_restriction(Restriction::new("odd".to_string(), 1, vec![5, 3, 9, 1]));
        builder.finish().unwrap()
    };
    let mut one = build();
    let mut other = build();
    let first = run(&mut one);
    assert!(!first.is_empty());
    assert_eq!(first, run(&mut other));
    assert_eq!(one.seats_remaining(), other.seats_remaining());
}

#[test]
fn a_large_election_is_counted_to_the_end() {
    let candidates = 25usize;
    let voters = 4000usize;
    let seats = 5usize;
    let mut builder = ContextBuilder::new(seats);
    let mut state = 12345usize;
    for voter in 0..voters {
        let mut order: Vec<usize> = (0..candidates).collect();
        for k in (1..candidates).rev() {
            state = state.wrapping_mul(6364136223846793005).wrapping_add(1442695040888963407);
            order.swap(k, (state >> 33) % (k + 1));
        }
        for (rank, option) in order.iter().take(8).enumerate() {
            builder.insert_vote(line(voter, 100 + option, "someone", rank + 1));
        }
    }
    builder.insert_restriction(Restriction::new("low".to_string(), 2, (100..110).collect()));
    builder.insert_restriction(Restriction::new("high".to_string(), 2, (110..125).collect()));
    let mut ctx = builder.finish().unwrap();
    assert_eq!(ctx.quota(), 800);
    let mut winners = 0;
    let mut reports = 0;
    while let Some(result) = ctx.next() {
        reports += 1;
        match result {
            RoundResult::CandidateSucceeded(_, votes, snapshot) => {
                winners += 1;
                assert!(votes >= 800);
                let total: usize = snapshot.iter().map(|(_, votes)| *votes).sum();
                assert!(total <= voters);
            }
            RoundResult::CandidateEliminated(_, snapshot) => {
                let total: usize = snapshot.iter().map(|(_, votes)| *votes).sum();
                assert!(total <= voters);
                assert!(snapshot.iter().all(|(_, votes)| *votes < 800));
            }
            RoundResult::CandidateEliminatedByRestriction(_, group) => {
                assert!(group == "low" || group == "high");
            }
        }
        assert!(reports <= candidates);
    }
    assert!(winners <= 4);
    assert_eq!(winners + ctx.seats_remaining(), seats);
}

#[test]
fn the_tally_pass_puts_each_ballot_into_the_bucket_of_its_candidate() {
    let mut ctx = scenario_a();
    let buckets = ctx.calculate_votes();
    assert_eq!(buckets, vec![vec![0, 1, 2, 3, 4], vec![5]]);
    assert_eq!(ctx.sum_votes(&buckets[0]), 5);
    assert_eq!(ctx.sum_votes(&buckets[1]), 1);
    assert!(matches!(ctx.next(), Some(RoundResult::CandidateSucceeded(_, 5, _))));
    let buckets = ctx.calculate_votes();
    assert_eq!(buckets, vec![vec![], vec![5]]);
    assert_eq!(ctx.sum_votes(&buckets[0]), 0);
    assert_eq!(ctx.sum_votes(&buckets[1]), 1);
    assert_eq!(ctx.calculate_votes(), buckets);
}

#[test]
fn listed_ballots_are_summed_and_rounded_down_to_whole_votes() {
    let mut ctx = scenario_a();
    assert_eq!(ctx.sum_votes(&vec![]), 0);
    assert_eq!(ctx.sum_votes(&vec![3]), 1);
    assert_eq!(ctx.sum_votes(&vec![0, 5]), 2);
    assert_eq!(ctx.sum_votes(&vec![0, 1, 2, 3, 4, 5]), 6);
    assert!(matches!(ctx.next(), Some(RoundResult::CandidateSucceeded(_, 5, _))));
    // Each of the five ballots that elected X keeps two fifths of a vote.
    assert_eq!(ctx.sum_votes(&vec![]), 0);
    assert_eq!(ctx.sum_votes(&vec![0]), 0);
    assert_eq!(ctx.sum_votes(&vec![0, 1]), 0);
    assert_eq!(ctx.sum_votes(&vec![0, 1, 2]), 1);
    assert_eq!(ctx.sum_votes(&vec![0, 1, 2, 3]), 1);
    assert_eq!(ctx.sum_votes(&vec![0, 1, 2, 3, 4]), 2);
    assert_eq!(ctx.sum_votes(&vec![5]), 1);
    assert_eq!(ctx.sum_votes(&vec![5, 0, 1]), 1);
    assert_eq!(ctx.sum_votes(&vec![4, 3, 5, 2]), 2);
    assert_eq!(ctx.quota(), 3);
    assert_eq!(ctx.seats_remaining(), 1);
}

#[test]
fn a_ballot_counts_for_its_first_preference_that_is_in_the_count() {
    let mut builder = ContextBuilder::new(2);
    builder.insert_vote(line(1, 5, "A", 2));
    builder.insert_vote(line(1, 6, "B", 1));
    builder.insert_vote(line(1, 7, "C", 3));
    builder.insert_vote(line(2, 7, "C", 1));
    builder.insert_vote(line(3, 5, "A", 0));
    builder.insert_vote(line(4, 8, "D", 0));
    for voter in 10..16 {
        builder.insert_vote(line(voter, 7, "C", 1));
    }
    let mut ctx = builder.finish().unwrap();
    assert_eq!(ctx.quota(), 5);
    // A is place 0, B is 1, C is 2, D is 3; voters 3 and 4 rank nobody.
    let buckets = ctx.calculate_votes();
    assert_eq!(buckets, vec![vec![], vec![0], vec![1, 4, 5, 6, 7, 8, 9], vec![]]);
    let tallies: Vec<usize> = buckets.iter().map(|bucket| ctx.sum_votes(bucket)).collect();
    assert_eq!(tallies, vec![0, 1, 7, 0]);
    assert!(tallies.iter().sum::<usize>() <= 10);
    let mut seen = vec![false; 10];
    for bucket in &buckets {
        for ballot in bucket {
            assert!(!seen[*ballot]);
            seen[*ballot] = true;
        }
    }
    assert!(matches!(ctx.next(), Some(RoundResult::CandidateSucceeded(_, 7, _))));
    // C is elected and out of the count: its bucket stays empty, and the
    // ballot of voter 1 still counts for B.
    let buckets = ctx.calculate_votes();
    assert_eq!(buckets, vec![vec![], vec![0], vec![], vec![]]);
    // A is dropped as the first seen of the last; D is tied with it.
    assert_eq!(
        ctx.next(),
        Some(RoundResult::CandidateEliminated(
            "A".to_string(),
            vec![tally("A", 0), tally("B", 1), tally("D", 0)]
        ))
    );
    assert_eq!(ctx.calculate_votes(), vec![vec![], vec![0], vec![], vec![]]);
    assert_eq!(
        ctx.next(),
        Some(RoundResult::CandidateEliminated(
            "D".to_string(),
            vec![tally("B", 1), tally("D", 0)]
        ))
    );
    assert_eq!(
        ctx.next(),
        Some(RoundResult::CandidateEliminated("B".to_string(), vec![tally("B", 1)]))
    );
    // Nobody is in the count any more: the ballots name nobody.
    assert_eq!(ctx.calculate_votes(), vec![vec![], vec![], vec![], vec![]]);
    assert_eq!(ctx.next(), None);
}

#[test]
fn the_tally_pass_of_an_election_without_records_is_empty() {
    let mut ctx = ContextBuilder::new(2).finish().unwrap();
    let buckets = ctx.calculate_votes();
    assert!(buckets.is_empty());
    assert_eq!(ctx.sum_votes(&vec![]), 0);
}

#[test]
fn a_tally_pass_before_a_round_does_not_change_its_report() {
    let build = || {
        let mut builder = ContextBuilder::new(2);
        for voter in 1..=5 {
            builder.insert_vote(line(voter, 10, "X", 1));
            builder.insert_vote(line(voter, 30, "Z", 2));
        }
        builder.insert_vote(line(6, 20, "Y", 1));
        builder.finish().unwrap()
    };
    let mut plain = build();
    let mut passed = build();
    loop {
        let buckets = passed.calculate_votes();
        let tallies: Vec<usize> = buckets.iter().map(|bucket| passed.sum_votes(bucket)).collect();
        let one = plain.next();
        let other = passed.next();
        assert_eq!(one, other);
        match one {
            Some(RoundResult::CandidateSucceeded(_, votes, snapshot)) => {
                assert!(tallies.contains(&votes));
                assert!(snapshot.iter().all(|(_, votes)| tallies.contains(votes)));
            }
            Some(RoundResult::CandidateEliminated(_, snapshot)) => {
                assert!(snapshot.iter().all(|(_, votes)| tallies.contains(votes)));
            }
            Some(_) => {}
            None => break,
        }
    }
}

#[test]
fn a_call_that_reports_nothing_changes_nothing() {
    let mut ctx = scenario_a();
    while ctx.next().is_some() {}
    let buckets = ctx.calculate_votes();
    let all: Vec<usize> = (0..6).collect();
    let strength = ctx.sum_votes(&all);
    for _ in 0..3 {
        assert_eq!(ctx.next(), None);
        assert_eq!(ctx.seats_remaining(), 1);
        assert_eq!(ctx.quota(), 3);
        assert_eq!(ctx.get_name(10), Some("X".to_string()));
    }
    assert_eq!(ctx.calculate_votes(), buckets);
    assert_eq!(ctx.sum_votes(&all), strength);
    assert_eq!(strength, 3);
}
