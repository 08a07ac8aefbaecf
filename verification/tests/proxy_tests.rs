use protohackers::proxy::{replace_addresses, AddressRewriter};

const TONY: &str = "7YWHMfk9JZe0LM0g1ZauHuiSxhI";

fn rewrite(s: &str) -> String {
    let rw = AddressRewriter::new().ok().expect("the address pattern compiles");
    let mut m = s.to_string();
    replace_addresses(&rw, &mut m);
    m
}

#[test]
fn address_pattern_compiles() {
    assert!(AddressRewriter::new().is_ok());
}

#[test]
fn address_at_end_of_line_is_replaced() {
    assert_eq!(
        rewrite("Please pay 7F1u3wSD5RbOHQmupo9nx4TnhQ\n"),
        format!("Please pay {}\n", TONY)
    );
}

#[test]
fn address_at_start_and_middle_are_replaced() {
    assert_eq!(
        rewrite("7iKDZEwPZSqIvDnHvVN2r0hUWXD5rHX send to 7LOrwbDlS8NujgjddyogWgIM93MV5N2VR please\n"),
        format!("{} send to {} please\n", TONY, TONY)
    );
}

#[test]
fn address_at_end_of_text_is_replaced() {
    assert_eq!(rewrite("to 7adNeSwJkMakpEcln9HEtthSRtxdmEHOT8T"), format!("to {}", TONY));
}

#[test]
fn too_short_or_too_long_candidates_are_kept() {
    // 24 characters after the 7: too short.
    let short = "7F1u3wSD5RbOHQmupo9nx4Tn\n";
    assert_eq!(rewrite(short), short);
    // 40 characters after the 7, with no 7 inside to restart at: too long.
    let long = "7aaaaaaaaaaaaaaaaaaaaaaaaaaaaaaaaaaaaaaaa\n";
    assert_eq!(rewrite(long), long);
}

#[test]
fn candidate_followed_by_other_punctuation_is_kept() {
    let s = "pay 7F1u3wSD5RbOHQmupo9nx4TnhQ-1234 now\n";
    assert_eq!(rewrite(s), s);
}

#[test]
fn match_may_start_inside_a_word() {
    // The pattern is not anchored at the start of a word.
    assert_eq!(
        rewrite("x7F1u3wSD5RbOHQmupo9nx4TnhQ ok"),
        format!("x{} ok", TONY)
    );
}

#[test]
fn message_without_addresses_is_unchanged() {
    for s in ["", " ", "hello world\n", "  double  spaces  ", "ünïcödé text 7 7"] {
        assert_eq!(rewrite(s), s);
    }
}
