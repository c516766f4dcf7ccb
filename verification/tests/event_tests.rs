//! Tests for event rendering.

use hst::event::NumberedEvent;

#[test]
fn can_display_events() {
    assert_eq!(NumberedEvent(0).to_string(), "E₀");
    assert_eq!(NumberedEvent(10).to_string(), "E₁₀");
    assert_eq!(NumberedEvent(0123456789).to_string(), "E₁₂₃₄₅₆₇₈₉");
}

#[test]
fn test_support_can_display_events() {
    assert_eq!(NumberedEvent(0).to_string(), "E₀");
    assert_eq!(NumberedEvent(10).to_string(), "E₁₀");
    assert_eq!(NumberedEvent(01234).to_string(), "E₁₂₃₄");
}

#[test]
fn single_digit_labels() {
    assert_eq!(NumberedEvent(5).to_string(), "E₅");
    assert_eq!(NumberedEvent(4294967295).to_string(), "E₄₂₉₄₉₆₇₂₉₅");
}
