use rust_cli::truncate;

#[test]
fn short_input_is_returned_unchanged() {
    assert_eq!(truncate("hello", 40), "hello");
    assert_eq!(truncate("hello", 5), "hello");
    assert_eq!(truncate("", 0), "");
}

#[test]
fn long_input_is_cut_to_exactly_the_budget() {
    let out = truncate("hello world", 8);
    assert_eq!(out, "hello...");
    assert_eq!(out.chars().count(), 8);
}

#[test]
fn tiny_budgets_give_only_dots() {
    assert_eq!(truncate("hello", 3), "...");
    assert_eq!(truncate("hello", 2), "..");
    assert_eq!(truncate("hello", 1), ".");
    assert_eq!(truncate("hello", 0), "");
}

#[test]
fn budget_one_longer_than_input_changes_nothing() {
    assert_eq!(truncate("abc", 4), "abc");
}

#[test]
fn boundary_budget_keeps_one_character() {
    assert_eq!(truncate("abcde", 4), "a...");
}
