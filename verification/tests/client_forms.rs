use rcvs_server::ballot::Rank;
use rcvs_server::client::{
    apply_rank_input, format_choice, parse_rank, vec_to_ballot, wizard_menu, ClientError,
};
use rcvs_server::election_info::Choice;

fn choice(name: &str, description: &str) -> Choice {
    Choice::new(name.to_string(), description.to_string())
}

#[test]
fn parse_rank_single_value() {
    let r = parse_rank("7".to_string()).unwrap();
    assert_eq!((r.low(), r.high()), (7, 7));
}

#[test]
fn parse_rank_range() {
    let r = parse_rank("2-5".to_string()).unwrap();
    assert_eq!((r.low(), r.high()), (2, 5));
}

#[test]
fn parse_rank_empty_is_zero() {
    let r = parse_rank(String::new()).unwrap();
    assert_eq!((r.low(), r.high()), (0, 0));
}

#[test]
fn parse_rank_reversed_range_is_bad() {
    assert_eq!(parse_rank("5-2".to_string()), Err(ClientError::BadRank));
}

#[test]
fn parse_rank_rejects_bad_text() {
    assert_eq!(parse_rank("1-2-3".to_string()), Err(ClientError::ParseFailure));
    assert_eq!(parse_rank("a".to_string()), Err(ClientError::ParseFailure));
    assert_eq!(parse_rank("1 2".to_string()), Err(ClientError::ParseFailure));
    assert_eq!(
        parse_rank("99999999999999999999".to_string()),
        Err(ClientError::ParseFailure)
    );
}

#[test]
fn error_descriptions() {
    assert_eq!(ClientError::ParseFailure.description(), "Parsing failed");
    assert_eq!(ClientError::BadRank.description(), "Rank is incorrect");
}

#[test]
fn format_ranked_choice() {
    let entry = (choice("A", "first option"), Some(Rank::new(2, 3).unwrap()));
    assert_eq!(format_choice(&entry), "A, 2-3: first option");
    let single = (choice("B", "second option"), Some(Rank::exact(4)));
    assert_eq!(format_choice(&single), "B, 4: second option");
}

#[test]
fn format_unranked_choice() {
    let entry = (choice("A", "first option"), None);
    assert_eq!(format_choice(&entry), "A, UNRANKED: first option");
}

#[test]
fn vec_to_ballot_skips_unranked() {
    let list = vec![
        (choice("A", "a"), Some(Rank::exact(1))),
        (choice("B", "b"), None),
        (choice("C", "c"), Some(Rank::new(2, 3).unwrap())),
    ];
    let b = vec_to_ballot(list);
    assert_eq!(b.len(), 2);
    let (n0, r0) = b.entry(0);
    assert_eq!((n0.as_str(), r0.low(), r0.high()), ("A", 1, 1));
    let (n1, r1) = b.entry(1);
    assert_eq!((n1.as_str(), r1.low(), r1.high()), ("C", 2, 3));
}

#[test]
fn wizard_menu_lists_done_then_choices() {
    let list = vec![
        (choice("A", "a"), Some(Rank::exact(1))),
        (choice("B", "b"), None),
    ];
    let menu = wizard_menu(&list);
    assert_eq!(menu, vec!["Done", "A, 1: a", "B, UNRANKED: b"]);
}

#[test]
fn apply_rank_input_sets_clears_and_reports() {
    let mut list = vec![(choice("A", "a"), None), (choice("B", "b"), None)];
    assert_eq!(apply_rank_input(&mut list, 0, "2-4".to_string()), Ok(()));
    let r = list[0].1.unwrap();
    assert_eq!((r.low(), r.high()), (2, 4));
    assert!(list[1].1.is_none());

    assert_eq!(apply_rank_input(&mut list, 0, "U".to_string()), Ok(()));
    assert!(list[0].1.is_none());

    assert_eq!(
        apply_rank_input(&mut list, 1, "9-1".to_string()),
        Err(ClientError::BadRank)
    );
    assert!(list[1].1.is_none());
}
