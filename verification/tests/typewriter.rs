use quill_engine::focus::typewriter::{rule, Band, Rule, POINTER_MS};

#[test]
fn within_the_press_window_the_pointer_band_holds_and_after_it_the_anchor() {
    assert_eq!(rule(true, false, Some(0)), Rule::Nudge(Band::Pointer));
    assert_eq!(rule(true, true, Some(POINTER_MS - 1)), Rule::Nudge(Band::Pointer));
    assert_eq!(rule(true, false, Some(POINTER_MS)), Rule::Anchor);
    assert_eq!(rule(true, true, Some(5_000)), Rule::Anchor);
    assert_eq!(rule(true, false, None), Rule::Anchor);
}

#[test]
fn with_focus_on_and_typewriter_off_the_edge_band_holds() {
    assert_eq!(rule(false, true, None), Rule::Nudge(Band::Edge));
    assert_eq!(rule(false, true, Some(0)), Rule::Nudge(Band::Edge));
    assert_eq!(rule(false, false, Some(0)), Rule::Free);
    assert_eq!(rule(false, false, None), Rule::Free);
}
