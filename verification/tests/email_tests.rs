use rust_cli::validate_email;

#[test]
fn test_validate_email_basic() {
    assert!(validate_email("user@example.com"));
    assert!(!validate_email("not-an-email"));
}

#[test]
fn empty_string_is_rejected() {
    assert!(!validate_email(""));
}

#[test]
fn domain_without_dot_is_rejected() {
    assert!(!validate_email("a@b"));
}

#[test]
fn one_character_top_level_segment_is_rejected() {
    assert!(!validate_email("a@b.c"));
}

#[test]
fn empty_domain_segment_is_rejected() {
    assert!(!validate_email("a@b..com"));
    assert!(!validate_email("a@.com"));
    assert!(!validate_email("a@com."));
}

#[test]
fn missing_local_or_domain_is_rejected() {
    assert!(!validate_email("@example.com"));
    assert!(!validate_email("user@"));
    assert!(!validate_email("@"));
}

#[test]
fn local_part_length_limit_is_sixty_four() {
    let local_64: String = "a".repeat(64);
    let local_65: String = "a".repeat(65);
    assert!(validate_email(&format!("{}@example.com", local_64)));
    assert!(!validate_email(&format!("{}@example.com", local_65)));
}

#[test]
fn second_at_sign_lands_in_the_domain() {
    // The heuristic splits at the first `@` only; a second one is not
    // rejected by itself.
    assert!(validate_email("a@b@c.com"));
    assert!(!validate_email("a@b@c"));
}

#[test]
fn two_character_top_level_segment_is_accepted() {
    assert!(validate_email("a@b.cd"));
}
