use voteinator::deserialize::create_context;
use voteinator::deserialize::deserialize_restrictions;
use voteinator::deserialize::parse_number;
use voteinator::deserialize::parse_record;
use voteinator::deserialize::parse_restrictions;
use voteinator::deserialize::ParseError;
use voteinator::deserialize::SetupError;
use voteinator::deserialize::VoteEntry;
use voteinator::domain::context::builder::BuildError;
use voteinator::domain::context::builder::ValidationError;
use voteinator::domain::context::ContextBuilder;
use voteinator::domain::context::RoundResult;

fn chars(text: &str) -> Vec<char> {
    text.chars().collect()
}

fn entry(voter: usize, option: usize, name: &str, rank: usize) -> VoteEntry {
    VoteEntry {
        vote_option: option,
        vote_rank: rank,
        user_id: voter,
        vote_option_full: name.to_string(),
    }
}

fn parsed(text: &str) -> Result<Vec<(String, usize, Vec<usize>)>, ParseError> {
    parse_restrictions(text).map(|all| {
        all.iter()
            .map(|r| (r.group_name().to_string(), r.limit(), r.members().clone()))
            .collect()
    })
}

#[test]
fn numbers_are_read_as_decimal() {
    assert_eq!(parse_number(&chars("0")), Some(0));
    assert_eq!(parse_number(&chars("7")), Some(7));
    assert_eq!(parse_number(&chars("1810")), Some(1810));
    assert_eq!(parse_number(&chars("007")), Some(7));
    assert_eq!(parse_number(&chars("+42")), Some(42));
    assert_eq!(parse_number(&chars(&usize::MAX.to_string())), Some(usize::MAX));
}

#[test]
fn what_is_no_number_is_refused() {
    assert_eq!(parse_number(&chars("")), None);
    assert_eq!(parse_number(&chars("+")), None);
    assert_eq!(parse_number(&chars("-1")), None);
    assert_eq!(parse_number(&chars("++1")), None);
    assert_eq!(parse_number(&chars("1+")), None);
    assert_eq!(parse_number(&chars(" 1")), None);
    assert_eq!(parse_number(&chars("1 ")), None);
    assert_eq!(parse_number(&chars("12a")), None);
    assert_eq!(parse_number(&chars("1.5")), None);
    assert_eq!(parse_number(&chars("\u{663}")), None);
}

#[test]
fn a_number_too_large_for_the_machine_is_refused() {
    let too_large = format!("{}0", usize::MAX);
    assert_eq!(parse_number(&chars(&too_large)), None);
    let one_more = format!("{}", usize::MAX as u128 + 1);
    assert_eq!(parse_number(&chars(&one_more)), None);
    assert_eq!(parse_number(&chars("99999999999999999999999999999999999999999")), None);
}

#[test]
fn numbers_agree_with_the_standard_library() {
    for text in ["0", "10", "+5", "", "+", "-3", "0x10", "18446744073709551616", "000", "9 "] {
        assert_eq!(parse_number(&chars(text)), text.parse::<usize>().ok());
    }
}

#[test]
fn a_line_is_read_as_a_restriction() {
    let r = parse_record(&chars("north,2,4,8,15"), 1).unwrap();
    assert_eq!(r.group_name(), "north");
    assert_eq!(r.limit(), 2);
    assert_eq!(r.members(), &vec![4, 8, 15]);
    let lone = parse_record(&chars(",1"), 1).unwrap();
    assert_eq!(lone.group_name(), "");
    assert_eq!(lone.limit(), 1);
    assert!(lone.members().is_empty());
    let named = parse_record(&chars("Grüne Liste,+3,7"), 1).unwrap();
    assert_eq!(named.group_name(), "Grüne Liste");
    assert_eq!(named.limit(), 3);
    assert_eq!(named.members(), &vec![7]);
}

#[test]
fn a_line_that_is_no_restriction_is_refused() {
    assert!(matches!(parse_record(&chars(""), 3), Err(ParseError::MissingLimit { line: 3 })));
    assert!(matches!(parse_record(&chars("g"), 4), Err(ParseError::MissingLimit { line: 4 })));
    assert!(matches!(parse_record(&chars("g,"), 5), Err(ParseError::BadLimit { line: 5 })));
    assert!(matches!(parse_record(&chars("g,x,1"), 6), Err(ParseError::BadLimit { line: 6 })));
    assert!(matches!(parse_record(&chars("g,0,1"), 7), Err(ParseError::ZeroLimit { line: 7 })));
    assert!(matches!(
        parse_record(&chars("g,1,2,,3"), 8),
        Err(ParseError::BadMember { line: 8, field: 3 })
    ));
    assert!(matches!(
        parse_record(&chars("g,1,"), 9),
        Err(ParseError::BadMember { line: 9, field: 2 })
    ));
    assert!(matches!(
        parse_record(&chars("g,1,a,b"), 2),
        Err(ParseError::BadMember { line: 2, field: 2 })
    ));
}

#[test]
fn a_text_is_read_line_by_line() {
    assert_eq!(
        parsed("group_name,limit,members\nnorth,1,1,2\nsouth,2,3\n"),
        Ok(vec![("north".to_string(), 1, vec![1, 2]), ("south".to_string(), 2, vec![3])])
    );
    assert_eq!(
        parsed("group_name,limit,members\nnorth,1,1,2\nsouth,2,3"),
        Ok(vec![("north".to_string(), 1, vec![1, 2]), ("south".to_string(), 2, vec![3])])
    );
    assert_eq!(parsed("group_name,limit,members"), Ok(vec![]));
    assert_eq!(parsed("group_name,limit,members\n"), Ok(vec![]));
    assert_eq!(
        parsed("group_name,limit,members,and,more\nalone,5"),
        Ok(vec![("alone".to_string(), 5, vec![])])
    );
}

#[test]
fn carriage_returns_before_line_feeds_are_line_ends() {
    assert_eq!(
        parsed("group_name,limit,members\r\nnorth,1,1,2\r\nsouth,2,3\r\n"),
        Ok(vec![("north".to_string(), 1, vec![1, 2]), ("south".to_string(), 2, vec![3])])
    );
    assert_eq!(
        parsed("group_name,limit,members\r\nnorth,1,1,2\r"),
        Err(ParseError::BadMember { line: 1, field: 3 })
    );
    assert_eq!(parsed("group_name,limit,members\r"), Err(ParseError::Header));
}

#[test]
fn a_text_without_the_heading_is_refused() {
    assert_eq!(parsed(""), Err(ParseError::Header));
    assert_eq!(parsed("\n"), Err(ParseError::Header));
    assert_eq!(parsed("north,1,1"), Err(ParseError::Header));
    assert_eq!(parsed("group_name,limit"), Err(ParseError::Header));
    assert_eq!(parsed("group_name,limit,member\n"), Err(ParseError::Header));
    assert_eq!(parsed("group_name, limit,members\n"), Err(ParseError::Header));
    assert_eq!(parsed("Group_name,limit,members\n"), Err(ParseError::Header));
    assert_eq!(parsed("\ngroup_name,limit,members\n"), Err(ParseError::Header));
}

#[test]
fn the_first_bad_line_is_reported() {
    assert_eq!(
        parsed("group_name,limit,members\nnorth,1,1\n\nsouth,x\n"),
        Err(ParseError::MissingLimit { line: 2 })
    );
    assert_eq!(
        parsed("group_name,limit,members\nnorth,1,1\nsouth,x\neast\n"),
        Err(ParseError::BadLimit { line: 2 })
    );
    assert_eq!(
        parsed("group_name,limit,members\nnorth,0,1\n"),
        Err(ParseError::ZeroLimit { line: 1 })
    );
    assert_eq!(
        parsed("group_name,limit,members\nnorth,1,1\nsouth,1,2, 3\n"),
        Err(ParseError::BadMember { line: 2, field: 3 })
    );
}

#[test]
fn restrictions_from_a_text_reach_the_builder_in_order() {
    let mut builder = ContextBuilder::new(2);
    for voter in 1..=3 {
        builder.insert_vote(entry(voter, 1, "A", 1));
    }
    for voter in 4..=6 {
        builder.insert_vote(entry(voter, 2, "B", 1));
    }
    assert_eq!(
        deserialize_restrictions(Some("group_name,limit,members\nG,1,1,2\n"), &mut builder),
        Ok(())
    );
    let mut ctx = builder.finish().unwrap();
    assert!(matches!(ctx.next(), Some(RoundResult::CandidateSucceeded(_, 3, _))));
    assert_eq!(
        ctx.next(),
        Some(RoundResult::CandidateEliminatedByRestriction("B".to_string(), "G".to_string()))
    );
}

#[test]
fn no_text_and_a_refused_text_leave_the_builder_alone() {
    let mut builder = ContextBuilder::new(2);
    builder.insert_vote(entry(1, 1, "A", 1));
    assert_eq!(deserialize_restrictions(None, &mut builder), Ok(()));
    assert_eq!(
        deserialize_restrictions(
            Some("group_name,limit,members\nG,1,9\nH,zero\n"),
            &mut builder
        ),
        Err(ParseError::BadLimit { line: 2 })
    );
    // The first line named a member that is no candidate: had it reached
    // the builder, finishing would fail.
    assert!(builder.finish().is_ok());
}

#[test]
fn a_count_is_set_up_from_records() {
    let mut votes = Vec::new();
    for voter in 1..=5 {
        votes.push(entry(voter, 10, "X", 1));
    }
    votes.push(entry(6, 20, "Y", 1));
    let mut ctx = create_context(votes, 2, Some("group_name,limit,members\nxy,1,10,20")).unwrap();
    assert_eq!(ctx.quota(), 3);
    assert_eq!(ctx.seats_remaining(), 2);
    assert_eq!(
        ctx.next(),
        Some(RoundResult::CandidateSucceeded(
            "X".to_string(),
            5,
            vec![("X".to_string(), 5), ("Y".to_string(), 1)]
        ))
    );
    assert_eq!(
        ctx.next(),
        Some(RoundResult::CandidateEliminatedByRestriction("Y".to_string(), "xy".to_string()))
    );
    assert_eq!(ctx.next(), None);
}

#[test]
fn setting_up_reports_what_is_wrong() {
    let votes = vec![entry(1, 1, "A", 1), entry(2, 2, "B", 1)];
    assert!(matches!(
        create_context(votes.clone(), 2, Some("limit,group_name,members\n")),
        Err(SetupError::Restrictions(ParseError::Header))
    ));
    assert!(matches!(
        create_context(votes.clone(), 1, None),
        Err(SetupError::Build(BuildError::Configuration))
    ));
    assert!(matches!(
        create_context(votes.clone(), 1, Some("nothing")),
        Err(SetupError::Restrictions(ParseError::Header))
    ));
    assert!(matches!(
        create_context(votes.clone(), 2, Some("group_name,limit,members\nG,1,3")),
        Err(SetupError::Build(BuildError::Validation(ValidationError::UnknownMember {
            group: 0,
            member: 3
        })))
    ));
    assert!(create_context(votes, 2, None).is_ok());
}
