use rcvs_server::election_info::{Choice, Election};
use rcvs_server::squeeze::squeeze_json;

fn sample() -> Election {
    Election::new(
        "Board vote".to_string(),
        "Who should chair the board?".to_string(),
        vec![
            Choice::new("A".to_string(), "first candidate".to_string()),
            Choice::new("B".to_string(), "second candidate".to_string()),
        ],
    )
}

#[test]
fn choice_accessors() {
    let c = Choice::new("A".to_string(), "first candidate".to_string());
    assert_eq!(c.name(), "A");
    assert_eq!(c.description(), "first candidate");
    assert_eq!(c.display_string(), "A: first candidate");
}

#[test]
fn election_accessors() {
    let e = sample();
    assert_eq!(e.iter().len(), 2);
    assert_eq!(e.iter()[0].name(), "A");
    assert_eq!(e.alternative_names(), vec!["A".to_string(), "B".to_string()]);
}

#[test]
fn election_display() {
    let e = sample();
    assert_eq!(
        e.display_string(),
        "\tBoard vote\nWho should chair the board?\n\tA: first candidate\n\tB: second candidate\n"
    );
}

#[test]
fn squeeze_collapses_indented_lines() {
    let input = "{\n    \"title\": \"T\",\n    \"question\": \"Q\"\n}".to_string();
    assert_eq!(squeeze_json(input), "{\"title\": \"T\", \"question\": \"Q\"}");
}

#[test]
fn squeeze_without_comma_joins_tokens() {
    let input = "[\n    1\n    2\n]".to_string();
    assert_eq!(squeeze_json(input), "[12]");
}

#[test]
fn squeeze_keeps_inner_spaces() {
    let input = "a b\n  c d".to_string();
    assert_eq!(squeeze_json(input), "a bc d");
}

#[test]
fn squeeze_empty_and_flat_input() {
    assert_eq!(squeeze_json(String::new()), "");
    assert_eq!(squeeze_json("already flat".to_string()), "already flat");
}

#[test]
fn squeeze_comma_before_newline_gets_space() {
    let input = "a,\nb".to_string();
    assert_eq!(squeeze_json(input), "a, b");
}
