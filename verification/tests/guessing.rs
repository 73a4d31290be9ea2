use rust_graph::guess::{parse_guess, respond_to_guess, GuessReply};

#[test]
fn parse_trimmed_numbers() {
    assert_eq!(parse_guess("42\n"), Some(42));
    assert_eq!(parse_guess("  7  "), Some(7));
    assert_eq!(parse_guess("+5"), Some(5));
    assert_eq!(parse_guess("007"), Some(7));
    assert_eq!(parse_guess("4294967295"), Some(u32::MAX));
}

#[test]
fn parse_rejects_non_numbers() {
    assert_eq!(parse_guess(""), None);
    assert_eq!(parse_guess("+"), None);
    assert_eq!(parse_guess("-3"), None);
    assert_eq!(parse_guess("4 2"), None);
    assert_eq!(parse_guess("abc"), None);
    assert_eq!(parse_guess("4294967296"), None);
    assert_eq!(parse_guess("99999999999999999999"), None);
}

#[test]
fn parse_agrees_with_std() {
    for s in ["0", "12", " 13\t", "+8", "x", "", "1e3", "65536"] {
        assert_eq!(parse_guess(s), s.trim().parse::<u32>().ok());
    }
}

#[test]
fn replies() {
    assert_eq!(respond_to_guess("10\n", 50), GuessReply::TooSmall);
    assert_eq!(respond_to_guess("90\n", 50), GuessReply::TooBig);
    assert_eq!(respond_to_guess("50\n", 50), GuessReply::Win);
    assert_eq!(respond_to_guess("fifty\n", 50), GuessReply::Retry);
}

#[test]
fn typing_the_secret_wins() {
    for secret in [1u32, 9, 10, 57, 100, 4294967295] {
        assert_eq!(respond_to_guess(&secret.to_string(), secret), GuessReply::Win);
    }
}

#[test]
fn secret_numbers_stay_in_range() {
    for _ in 0..200 {
        let s = rust_graph::guess::secret_number();
        assert!((1..=100).contains(&s));
    }
}
