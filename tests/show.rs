use dragon_say::frame::{create_dragon, pad_text, Segmentation, CAPTION_WIDTH, FRAME_HEIGHT};
use dragon_say::show::{anime_steps, say_lines, Step};

fn texts(items: &[&str]) -> Vec<String> {
    items.iter().map(|s| s.to_string()).collect()
}

fn writes(lines: Vec<String>) -> Vec<Step> {
    lines.into_iter().map(Step::Write).collect()
}

fn pauses(steps: &[Step]) -> usize {
    steps.iter().filter(|s| matches!(s, Step::Pause(_))).count()
}

fn clears(steps: &[Step]) -> usize {
    steps.iter().filter(|s| matches!(s, Step::Clear)).count()
}

#[test]
fn say_writes_frame_then_caption() {
    let lines = say_lines("Hi", Some("Hello"), 80, Segmentation::LineAware);
    assert_eq!(lines.len(), FRAME_HEIGHT + 1);
    assert_eq!(lines[..FRAME_HEIGHT], create_dragon("Hi", 80, Segmentation::LineAware)[..]);
    let caption = format!("{}Hello{}", " ".repeat(27), " ".repeat(28));
    assert_eq!(lines[FRAME_HEIGHT], caption);
}

#[test]
fn say_without_caption_ends_with_blank_line() {
    let lines = say_lines("Hi", None, 80, Segmentation::CharCount);
    assert_eq!(lines[FRAME_HEIGHT], " ".repeat(CAPTION_WIDTH));
}

#[test]
fn animation_of_one_caption_and_one_payload() {
    let steps = anime_steps(&texts(&["Ready"]), &texts(&["Hi"]), &texts(&[]), Some(50), 80, Segmentation::LineAware);
    let mut expected = vec![Step::Clear];
    expected.extend(writes(create_dragon("", 80, Segmentation::LineAware)));
    expected.push(Step::Write(pad_text("Ready", CAPTION_WIDTH, true)));
    expected.push(Step::Pause(50));
    expected.push(Step::Clear);
    expected.extend(writes(create_dragon("Hi", 80, Segmentation::LineAware)));
    expected.push(Step::Write(" ".repeat(CAPTION_WIDTH)));
    assert_eq!(steps, expected);
}

#[test]
fn animation_counts_transitions() {
    let steps = anime_steps(
        &texts(&["a", "b"]),
        &texts(&["x", "y", "z"]),
        &texts(&["end"]),
        Some(10),
        80,
        Segmentation::CharCount,
    );
    assert_eq!(pauses(&steps), 5);
    assert_eq!(clears(&steps), 6);
    assert_eq!(steps.len(), 1 + 6 * (FRAME_HEIGHT + 1) + 2 * 5);
    assert!(matches!(steps.last(), Some(Step::Write(_))));
}

#[test]
fn animation_skips_empty_phases() {
    let steps = anime_steps(&texts(&[]), &texts(&[]), &texts(&["one", "two"]), Some(10), 80, Segmentation::CharCount);
    assert_eq!(pauses(&steps), 1);
    assert_eq!(clears(&steps), 2);
    assert_eq!(steps[0], Step::Clear);
}

#[test]
fn animation_boundary_after_captions_only() {
    let steps = anime_steps(&texts(&["pre"]), &texts(&[]), &texts(&["after"]), Some(20), 80, Segmentation::CharCount);
    assert_eq!(pauses(&steps), 1);
    assert_eq!(steps[FRAME_HEIGHT + 2], Step::Pause(20));
    assert_eq!(steps[FRAME_HEIGHT + 3], Step::Clear);
}

#[test]
fn empty_animation_only_clears() {
    let steps = anime_steps(&texts(&[]), &texts(&[]), &texts(&[]), Some(10), 80, Segmentation::CharCount);
    assert_eq!(steps, vec![Step::Clear]);
}

#[test]
fn static_show_never_pauses_or_clears() {
    let steps = anime_steps(
        &texts(&["a", "b"]),
        &texts(&["x", "y", "z"]),
        &texts(&["end"]),
        None,
        80,
        Segmentation::LineAware,
    );
    assert_eq!(pauses(&steps), 0);
    assert_eq!(clears(&steps), 0);
    assert_eq!(steps.len(), 6 * (FRAME_HEIGHT + 1));
}
