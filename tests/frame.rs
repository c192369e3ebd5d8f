use dragon_say::frame::{
    count_split, create_dragon, line_split, pad_text, slot_lines, slot_texts, Segmentation,
    ART_0, ART_14, ART_SLOT_1_TAIL, ART_SLOT_2_TAIL, FRAME_HEIGHT, SLOT_WIDTH,
};

fn pair(a: &str, b: &str) -> (String, String) {
    (a.to_string(), b.to_string())
}

#[test]
fn short_payload_fills_first_slot_only() {
    assert_eq!(count_split("Hi"), pair("Hi", ""));
}

#[test]
fn payload_of_exact_capacity_fills_first_slot_only() {
    assert_eq!(count_split("ABCDEFGHIJKLMNOP"), pair("ABCDEFGHIJKLMNOP", ""));
}

#[test]
fn payload_over_capacity_spills_into_second_slot() {
    assert_eq!(count_split("ABCDEFGHIJKLMNOPQRST"), pair("ABCDEFGHIJKLMNOP", "QRST"));
}

#[test]
fn payload_of_twice_capacity_fills_both_slots() {
    assert_eq!(
        count_split("ABCDEFGHIJKLMNOPQRSTUVWXYZ012345"),
        pair("ABCDEFGHIJKLMNOP", "QRSTUVWXYZ012345")
    );
}

#[test]
fn characters_past_both_slots_are_dropped() {
    assert_eq!(
        count_split("ABCDEFGHIJKLMNOPQRSTUVWXYZ0123456"),
        pair("ABCDEFGHIJKLMNOP", "QRSTUVWXYZ012345")
    );
}

#[test]
fn slots_count_characters_not_bytes() {
    let payload = "おかずおかずおかずおかずおかずおかず";
    assert_eq!(count_split(payload), pair("おかずおかずおかずおかずおかずお", "かず"));
}

#[test]
fn empty_payload_gives_empty_slots() {
    assert_eq!(count_split(""), pair("", ""));
    assert_eq!(line_split(""), pair("", ""));
}

#[test]
fn empty_slots_render_as_spaces() {
    let blank = " ".repeat(SLOT_WIDTH);
    assert_eq!(slot_lines("", Segmentation::CharCount), (blank.clone(), blank.clone()));
    assert_eq!(slot_lines("", Segmentation::LineAware), (blank.clone(), blank));
}

#[test]
fn slots_are_centred() {
    let (first, second) = slot_lines("ABCDEFGHIJKLMNOPQRS", Segmentation::CharCount);
    assert_eq!(first, "  ABCDEFGHIJKLMNOP  ");
    assert_eq!(second, "        QRS         ");
}

#[test]
fn line_aware_uses_first_two_lines() {
    assert_eq!(line_split("foo\nbar\nbaz"), pair("foo", "bar"));
    assert_eq!(slot_texts("foo\nbar\nbaz", Segmentation::LineAware), pair("foo", "bar"));
}

#[test]
fn line_aware_strips_carriage_returns() {
    assert_eq!(line_split("foo\r\nbar\r\n"), pair("foo", "bar"));
}

#[test]
fn line_aware_keeps_an_empty_second_line() {
    assert_eq!(line_split("a\n\nb"), pair("a", ""));
    assert_eq!(line_split("a\n\n"), pair("a", ""));
}

#[test]
fn line_aware_cuts_a_single_line_by_count() {
    assert_eq!(
        line_split("ABCDEFGHIJKLMNOPQRST"),
        pair("ABCDEFGHIJKLMNOP", "QRST")
    );
    assert_eq!(line_split("abc\n"), pair("abc\n", ""));
}

#[test]
fn char_count_ignores_line_breaks() {
    assert_eq!(slot_texts("foo\nbar", Segmentation::CharCount), pair("foo\nbar", ""));
}

#[test]
fn pad_centres_with_the_extra_space_on_the_right() {
    assert_eq!(pad_text("ab", 6, true), "  ab  ");
    assert_eq!(pad_text("abc", 6, true), " abc  ");
}

#[test]
fn pad_left_fills_on_the_right() {
    assert_eq!(pad_text("ab", 6, false), "ab    ");
}

#[test]
fn pad_leaves_wide_text_alone() {
    assert_eq!(pad_text("abcdef", 3, false), "abcdef");
    assert_eq!(pad_text("abcdef", 3, true), "abcdef");
}

#[test]
fn pad_counts_terminal_columns() {
    assert_eq!(pad_text("く", 4, true), " く ");
    assert_eq!(pad_text("おかず", 6, true), "おかず");
}

#[test]
fn frame_has_fifteen_lines_of_the_terminal_width() {
    let frame = create_dragon("Hi", 100, Segmentation::LineAware);
    assert_eq!(frame.len(), FRAME_HEIGHT);
    assert_eq!(frame[0], format!("{}{}", ART_0, " ".repeat(100 - 46)));
    let slot = format!("|         Hi         {}", ART_SLOT_1_TAIL);
    assert_eq!(frame[5], format!("{}{}", slot, " ".repeat(100 - 50)));
}

#[test]
fn frame_lines_wider_than_the_terminal_are_kept() {
    let frame = create_dragon("", 10, Segmentation::CharCount);
    assert_eq!(frame.len(), FRAME_HEIGHT);
    assert_eq!(frame[0], ART_0);
    assert_eq!(frame[14], ART_14);
    assert_eq!(frame[5], format!("|{}{}", " ".repeat(20), ART_SLOT_1_TAIL));
    assert_eq!(frame[6], format!("|{}{}", " ".repeat(20), ART_SLOT_2_TAIL));
}

#[test]
fn frame_of_a_long_payload_holds_two_windows() {
    let frame = create_dragon("ABCDEFGHIJKLMNOPQRSTUVWXYZ0123456", 0, Segmentation::CharCount);
    assert_eq!(frame[5], format!("|  ABCDEFGHIJKLMNOP  {}", ART_SLOT_1_TAIL));
    assert_eq!(frame[6], format!("|  QRSTUVWXYZ012345  {}", ART_SLOT_2_TAIL));
    assert!(frame.iter().all(|line| !line.contains('6')));
}
