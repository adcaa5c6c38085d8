use rcvs_server::ballot::{Ballot, Rank};
use rcvs_server::codec::{parse_ballot, serialize_ballot, ParseError};

fn names(list: &[&str]) -> Vec<String> {
    list.iter().map(|s| s.to_string()).collect()
}

fn entries(b: &Ballot) -> Vec<(String, u64, u64)> {
    let mut out = Vec::new();
    for i in 0..b.len() {
        let (name, rank) = b.entry(i);
        out.push((name, rank.low(), rank.high()));
    }
    out
}

fn sorted_entries(b: &Ballot) -> Vec<(String, u64, u64)> {
    let mut out = entries(b);
    out.sort();
    out
}

#[test]
fn serialize_example_ballot() {
    let mut b = Ballot::new();
    b.insert("A".to_string(), Rank::exact(1));
    b.insert("B".to_string(), Rank::new(2, 3).unwrap());
    assert_eq!(serialize_ballot(&b), "[(A, 1, 1), (B, 2, 3)]");
}

#[test]
fn serialize_empty_ballot() {
    assert_eq!(serialize_ballot(&Ballot::new()), "[]");
}

#[test]
fn round_trip_example_ballot() {
    let known = names(&["A", "B", "C"]);
    let mut b = Ballot::new();
    b.insert("A".to_string(), Rank::exact(1));
    b.insert("B".to_string(), Rank::new(2, 3).unwrap());
    let text = serialize_ballot(&b);
    let parsed = parse_ballot(&text, &known).unwrap();
    assert_eq!(sorted_entries(&parsed), sorted_entries(&b));
    assert_eq!(entries(&parsed), entries(&b));
}

#[test]
fn round_trip_large_bounds() {
    let known = names(&["alpha", "beta9"]);
    let mut b = Ballot::new();
    b.insert("alpha".to_string(), Rank::new(10, 345).unwrap());
    b.insert("beta9".to_string(), Rank::new(0, u64::MAX).unwrap());
    let text = serialize_ballot(&b);
    assert_eq!(
        text,
        format!("[(alpha, 10, 345), (beta9, 0, {})]", u64::MAX)
    );
    let parsed = parse_ballot(&text, &known).unwrap();
    assert_eq!(entries(&parsed), entries(&b));
}

#[test]
fn parse_unknown_alternative() {
    let known = names(&["A", "B", "C"]);
    assert_eq!(
        parse_ballot("[(Z, 1, 1)]", &known),
        Err(ParseError::UnknownAlternative)
    );
}

#[test]
fn parse_invalid_rank() {
    let known = names(&["A", "B", "C"]);
    assert_eq!(parse_ballot("[(A, 3, 1)]", &known), Err(ParseError::InvalidRank));
}

#[test]
fn parse_accepts_equal_bounds() {
    let known = names(&["A"]);
    let parsed = parse_ballot("[(A, 4, 4)]", &known).unwrap();
    assert_eq!(entries(&parsed), vec![("A".to_string(), 4, 4)]);
}

#[test]
fn parse_empty_ballot() {
    let known = names(&["A"]);
    let parsed = parse_ballot("[]", &known).unwrap();
    assert_eq!(parsed.len(), 0);
}

#[test]
fn parse_ignores_whitespace() {
    let known = names(&["A", "B"]);
    let parsed = parse_ballot("  [\t( A ,\r\n1 , 2 ) ,( B , 3 , 3 ) ]\n", &known).unwrap();
    assert_eq!(
        entries(&parsed),
        vec![("A".to_string(), 1, 2), ("B".to_string(), 3, 3)]
    );
}

#[test]
fn parse_rejects_malformed_text() {
    let known = names(&["A"]);
    let cases = [
        "",
        "(",
        "A",
        "[(A, 1, 2)",
        "[(A, 1, 2]",
        "[] extra",
        "[(, 1, 2)]",
        "[(A 1 2)]",
        "[(A, 1, 2)](",
    ];
    for case in cases {
        assert_eq!(
            parse_ballot(case, &known),
            Err(ParseError::ProtocolSyntax),
            "case: {:?}",
            case
        );
    }
}

#[test]
fn parse_accepts_trailing_comma() {
    // after an entry's comma the closing bracket is still accepted
    let known = names(&["A"]);
    let parsed = parse_ballot("[(A, 1, 2),]", &known).unwrap();
    assert_eq!(entries(&parsed), vec![("A".to_string(), 1, 2)]);
}

#[test]
fn parse_rejects_oversized_bound() {
    let known = names(&["A"]);
    assert_eq!(
        parse_ballot("[(A, 99999999999999999999, 1)]", &known),
        Err(ParseError::ProtocolSyntax)
    );
}

#[test]
fn parse_missing_digits_default_to_zero() {
    // an empty bound reads as zero, as the recognizer accumulates from zero
    let known = names(&["A"]);
    let parsed = parse_ballot("[(A, , 2)]", &known).unwrap();
    assert_eq!(entries(&parsed), vec![("A".to_string(), 0, 2)]);
}

#[test]
fn parse_duplicate_name_keeps_last_rank() {
    let known = names(&["A", "B"]);
    let parsed = parse_ballot("[(A, 1, 1), (B, 1, 2), (A, 2, 3)]", &known).unwrap();
    assert_eq!(
        entries(&parsed),
        vec![("A".to_string(), 2, 3), ("B".to_string(), 1, 2)]
    );
}

#[test]
fn insert_replaces_rank_for_same_name() {
    let mut b = Ballot::new();
    b.insert("A".to_string(), Rank::exact(1));
    b.insert("A".to_string(), Rank::new(2, 5).unwrap());
    assert_eq!(entries(&b), vec![("A".to_string(), 2, 5)]);
}

#[test]
fn rank_construction() {
    assert!(Rank::new(3, 1).is_none());
    let r = Rank::new(1, 3).unwrap();
    assert_eq!((r.low(), r.high()), (1, 3));
    let s = Rank::exact(7);
    assert_eq!((s.low(), s.high()), (7, 7));
}
