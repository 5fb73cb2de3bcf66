use rust_cli::parse_config;
use rust_cli::ParseError;

#[test]
fn test_parse_config_basic() {
    let input = "host=localhost\nport=8080";
    let config = parse_config(input).unwrap();
    assert_eq!(config.get("host").unwrap().as_str(), "localhost");
    assert_eq!(config.get("port").unwrap().as_str(), "8080");
}

#[test]
fn line_without_delimiter_fails_at_its_line_number() {
    let err = parse_config("badline").unwrap_err();
    assert_eq!(err, ParseError::MissingDelimiter { line: 1 });
}

#[test]
fn empty_key_fails_at_its_line_number() {
    let err = parse_config("=novalue").unwrap_err();
    assert_eq!(err, ParseError::EmptyKey { line: 1 });
}

#[test]
fn whitespace_only_key_is_empty() {
    let err = parse_config("   =value").unwrap_err();
    assert_eq!(err, ParseError::EmptyKey { line: 1 });
}

#[test]
fn line_numbers_count_blank_and_comment_lines() {
    let err = parse_config("# header\n\nbadline").unwrap_err();
    assert_eq!(err, ParseError::MissingDelimiter { line: 3 });
}

#[test]
fn only_first_delimiter_splits_key_from_value() {
    let config = parse_config("key=a=b=c").unwrap();
    assert_eq!(config.get("key").unwrap().as_str(), "a=b=c");
}

#[test]
fn duplicate_key_keeps_the_last_value() {
    let config = parse_config("k=1\nk=2").unwrap();
    assert_eq!(config.len(), 1);
    assert_eq!(config.get("k").unwrap().as_str(), "2");
}

#[test]
fn blank_lines_and_comments_give_an_empty_map() {
    let config = parse_config("# comment\n\n   \n\t\n# another").unwrap();
    assert_eq!(config.len(), 0);
}

#[test]
fn empty_input_gives_an_empty_map() {
    let config = parse_config("").unwrap();
    assert_eq!(config.len(), 0);
}

#[test]
fn keys_and_values_are_trimmed() {
    let config = parse_config("  spaced key  =  spaced value  ").unwrap();
    assert_eq!(config.get("spaced key").unwrap().as_str(), "spaced value");
}

#[test]
fn value_may_be_empty() {
    let config = parse_config("k=").unwrap();
    assert_eq!(config.get("k").unwrap().as_str(), "");
}

#[test]
fn comment_may_be_indented() {
    let config = parse_config("   # indented comment\na=1").unwrap();
    assert_eq!(config.len(), 1);
    assert_eq!(config.get("a").unwrap().as_str(), "1");
}

#[test]
fn carriage_returns_are_trimmed_away() {
    let config = parse_config("a=1\r\nb=2\r\n").unwrap();
    assert_eq!(config.len(), 2);
    assert_eq!(config.get("a").unwrap().as_str(), "1");
    assert_eq!(config.get("b").unwrap().as_str(), "2");
}

#[test]
fn missing_key_returns_nothing() {
    let config = parse_config("a=1").unwrap();
    assert!(config.get("b").is_none());
    assert!(config.contains_key("a"));
    assert!(!config.contains_key("b"));
}

#[test]
fn parsing_twice_gives_identical_contents() {
    let input = "a=1\n# note\nb = two words \n\na=3";
    let first = parse_config(input).unwrap();
    let second = parse_config(input).unwrap();
    assert_eq!(first.len(), second.len());
    for key in ["a", "b"] {
        assert_eq!(first.get(key).unwrap(), second.get(key).unwrap());
    }
    assert_eq!(first.get("a").unwrap().as_str(), "3");
}

#[test]
fn entries_can_be_walked_in_storage_order() {
    let config = parse_config("a=1\nb=2").unwrap();
    let mut seen: Vec<(String, String)> = Vec::new();
    for i in 0..config.len() {
        let (k, v) = config.entry_at(i);
        seen.push((k.clone(), v.clone()));
    }
    seen.sort();
    assert_eq!(seen.len(), 2);
    assert_eq!(seen[0].0.as_str(), "a");
    assert_eq!(seen[0].1.as_str(), "1");
    assert_eq!(seen[1].0.as_str(), "b");
    assert_eq!(seen[1].1.as_str(), "2");
}

#[test]
fn parse_stops_at_the_first_error() {
    let err = parse_config("a=1\nbad\n=x").unwrap_err();
    assert_eq!(err, ParseError::MissingDelimiter { line: 2 });
}
