use vstd::prelude::*;
use vstd::string::*;

verus! {

/// How many characters of a payload fit in one slot.
pub const SLOT_CAPACITY: usize = 16;

/// The width, in columns, to which a slot's text is centred.
pub const SLOT_WIDTH: usize = 20;

/// The width, in columns, to which a caption is centred.
pub const CAPTION_WIDTH: usize = 60;

/// The number of lines of a frame.
pub const FRAME_HEIGHT: usize = 15;

/// How a payload is cut into the texts of the two slots.
#[derive(Clone, Copy, Debug, PartialEq, Eq, Structural)]
pub enum Segmentation {
    /// The payload is a flat run of characters: the first slot takes the first
    /// `SLOT_CAPACITY` characters and the second slot the next ones.
    CharCount,
    /// A payload of two or more lines fills the slots with its first two lines;
    /// a payload of one line is cut as by `CharCount`.
    LineAware,
}

/// The number of terminal columns of a text, as console::measure_text_width
/// counts them (escape codes left out, wide characters counted twice).
pub uninterp spec fn text_width(s: Seq<char>) -> nat;

/// `n` spaces.
pub open spec fn spaces(n: nat) -> Seq<char> {
    Seq::new(n, |i: int| ' ')
}

/// `s` padded with spaces to `width` columns, centred or flush left; a text
/// that already takes `width` columns or more is left as it is.
pub open spec fn padded(s: Seq<char>, width: nat, centered: bool) -> Seq<char> {
    if text_width(s) >= width {
        s
    } else {
        let diff = (width - text_width(s)) as nat;
        let left: nat = if centered { diff / 2 } else { 0 };
        spaces(left) + s + spaces((diff - left) as nat)
    }
}

/// Relies on console::pad_str without a truncation marker: it measures `s`
/// with console::measure_text_width, returns `s` unchanged when that reaches
/// `width`, and otherwise adds spaces on the left (half the gap, rounded down,
/// for `Alignment::Center`; none for `Alignment::Left`) and on the right up
/// to `width` columns.
#[verifier::external_body]
fn pad_str(s: &str, width: usize, centered: bool) -> (r: String)
    ensures
        text_width(s@) >= width ==> r@ == s@,
        text_width(s@) < width ==> r@ == ({
            let diff = (width - text_width(s@)) as nat;
            let left: nat = if centered { diff / 2 } else { 0 };
            spaces(left) + s@ + spaces((diff - left) as nat)
        }),
        s@.len() == 0 ==> r@ == spaces(width as nat),
{
    let align = if centered { console::Alignment::Center } else { console::Alignment::Left };
    console::pad_str(s, width, align, None).into_owned()
}

/// The texts of the two slots under the character-count rule: the first
/// `SLOT_CAPACITY` characters, then the next `SLOT_CAPACITY` characters at most.
pub open spec fn count_slots(s: Seq<char>) -> (Seq<char>, Seq<char>) {
    let n = SLOT_CAPACITY as int;
    if s.len() <= n {
        (s, Seq::empty())
    } else if s.len() <= 2 * n {
        (s.subrange(0, n), s.subrange(n, s.len() as int))
    } else {
        (s.subrange(0, n), s.subrange(n, 2 * n))
    }
}

/// The index of the first line feed of `s` at or after `from`, or the length of
/// `s` where there is none.
pub open spec fn next_newline(s: Seq<char>, from: int) -> int
    decreases s.len() - from,
{
    if from >= s.len() {
        s.len() as int
    } else if s[from] == '\n' {
        from
    } else {
        next_newline(s, from + 1)
    }
}

/// The line of `s` that starts at `start`, without its line ending (a line
/// feed, or a carriage return and a line feed).
pub open spec fn line_at(s: Seq<char>, start: int) -> Seq<char> {
    let end = next_newline(s, start);
    let raw = s.subrange(start, end);
    if end < s.len() && raw.len() > 0 && raw.last() == '\r' {
        raw.drop_last()
    } else {
        raw
    }
}

/// Whether `s` holds two lines or more: a line feed stands before its last
/// character.
pub open spec fn is_multi_line(s: Seq<char>) -> bool {
    next_newline(s, 0) < s.len() - 1
}

/// The texts of the two slots under the line-aware rule.
pub open spec fn line_slots(s: Seq<char>) -> (Seq<char>, Seq<char>) {
    if is_multi_line(s) {
        (line_at(s, 0), line_at(s, next_newline(s, 0) + 1))
    } else {
        count_slots(s)
    }
}

/// The texts of the two slots of a payload, before padding.
pub open spec fn slots_of(s: Seq<char>, policy: Segmentation) -> (Seq<char>, Seq<char>) {
    match policy {
        Segmentation::CharCount => count_slots(s),
        Segmentation::LineAware => line_slots(s),
    }
}

/// The rows of the art, from the top; the two slot rows hold a border, the
/// slot's text and the tail given here.
pub const ART_0: &'static str = "                                          ,. ､";
pub const ART_1: &'static str = "                                        く  r',ゝ";
pub const ART_2: &'static str = "r'￣￣￣￣￣￣￣￣￣ヽ                   ,ゝｰ'､";
pub const ART_3: &'static str = "|                    |          ､      ／      ヽ.";
pub const ART_4: &'static str = "|                    |        く、｀ヽ/  ∩       |";
pub const ART_SLOT_1_TAIL: &'static str = " ＞        ｀＞             |";
pub const ART_SLOT_2_TAIL: &'static str = "|         く´ , -'7         レ个ー─┐";
pub const ART_7: &'static str = "|                    |          ｀´   //  /      ー个ー─'7";
pub const ART_8: &'static str = "|                    |               //  /         |    (";
pub const ART_9: &'static str = "ゝ＿＿＿＿＿＿＿＿__ノ              //  /'┤      |ヽv'⌒ヽ､ゝ";
pub const ART_10: &'static str = "                                   くﾉ  lｰ┤       ヽ.";
pub const ART_11: &'static str = "                                    ｀^^'ｰ┤          ▽_";
pub const ART_12: &'static str = "                                    ((    )          ヽ乙_";
pub const ART_13: &'static str = "                                    ((    )ヽ､          ヽレl";
pub const ART_14: &'static str = "                                    ≧＿_ゝ    ｀ﾞー-=､.＿_,ゝ";

/// The left border of a slot row.
pub const ART_SLOT_BORDER: &'static str = "|";

/// The rows of the art with the two padded slot texts in place.
pub open spec fn art_rows(slot1: Seq<char>, slot2: Seq<char>) -> Seq<Seq<char>> {
    seq![
        ART_0@,
        ART_1@,
        ART_2@,
        ART_3@,
        ART_4@,
        ART_SLOT_BORDER@ + slot1 + ART_SLOT_1_TAIL@,
        ART_SLOT_BORDER@ + slot2 + ART_SLOT_2_TAIL@,
        ART_7@,
        ART_8@,
        ART_9@,
        ART_10@,
        ART_11@,
        ART_12@,
        ART_13@,
        ART_14@,
    ]
}

/// Row `i` of the art with the two padded slot texts in place.
fn art_row(i: usize, slot1: &str, slot2: &str) -> (r: String)
    requires
        i < FRAME_HEIGHT,
    ensures
        r@ == art_rows(slot1@, slot2@)[i as int],
{
    if i == 5 {
        String::from_str(ART_SLOT_BORDER).concat(slot1).concat(ART_SLOT_1_TAIL)
    } else if i == 6 {
        String::from_str(ART_SLOT_BORDER).concat(slot2).concat(ART_SLOT_2_TAIL)
    } else {
        let row: &str = if i == 0 {
            ART_0
        } else if i == 1 {
            ART_1
        } else if i == 2 {
            ART_2
        } else if i == 3 {
            ART_3
        } else if i == 4 {
            ART_4
        } else if i == 7 {
            ART_7
        } else if i == 8 {
            ART_8
        } else if i == 9 {
            ART_9
        } else if i == 10 {
            ART_10
        } else if i == 11 {
            ART_11
        } else if i == 12 {
            ART_12
        } else if i == 13 {
            ART_13
        } else {
            ART_14
        };
        String::from_str(row)
    }
}


/// The frame of a payload: the art with the slot texts centred to
/// `SLOT_WIDTH` columns, each row padded flush left to `width` columns.
pub open spec fn frame_of(payload: Seq<char>, width: nat, policy: Segmentation) -> Seq<Seq<char>> {
    let slots = slots_of(payload, policy);
    let rows = art_rows(
        padded(slots.0, SLOT_WIDTH as nat, true),
        padded(slots.1, SLOT_WIDTH as nat, true),
    );
    Seq::new(FRAME_HEIGHT as nat, |i: int| padded(rows[i], width, false))
}

/// Pads `s` with spaces to `width` columns, centred or flush left.
pub fn pad_text(s: &str, width: usize, centered: bool) -> (r: String)
    ensures
        r@ == padded(s@, width as nat, centered),
{
    pad_str(s, width, centered)
}

/// Cuts a payload into the texts of the two slots by its characters.
pub fn count_split(payload: &str) -> (r: (String, String))
    ensures
        (r.0@, r.1@) == count_slots(payload@),
{
    let len = payload.unicode_len();
    let first_end = if len < SLOT_CAPACITY { len } else { SLOT_CAPACITY };
    let second_end = if len < 2 * SLOT_CAPACITY { len } else { 2 * SLOT_CAPACITY };
    let first = String::from_str(payload.substring_char(0, first_end));
    let second = String::from_str(payload.substring_char(first_end, second_end));
    proof {
        if len <= SLOT_CAPACITY {
            assert(first@ =~= payload@);
            assert(second@ =~= Seq::<char>::empty());
        }
    }
    (first, second)
}

/// The index of the first line feed of `s` at or after `from`, or the length
/// of `s` where there is none.
fn find_newline(s: &str, len: usize, from: usize) -> (r: usize)
    requires
        len == s@.len(),
        from <= len,
    ensures
        r == next_newline(s@, from as int),
        from <= r <= len,
{
    let mut i: usize = from;
    while i < len
        invariant
            len == s@.len(),
            from <= i <= len,
            next_newline(s@, from as int) == next_newline(s@, i as int),
        decreases len - i,
    {
        if s.get_char(i) == '\n' {
            return i;
        }
        i = i + 1;
    }
    i
}

/// The line of `s` that starts at `start`, without its line ending.
fn line_from(s: &str, len: usize, start: usize) -> (r: String)
    requires
        len == s@.len(),
        start <= len,
    ensures
        r@ == line_at(s@, start as int),
{
    let end = find_newline(s, len, start);
    let stop = if end < len && end > start && s.get_char(end - 1) == '\r' {
        end - 1
    } else {
        end
    };
    let line = String::from_str(s.substring_char(start, stop));
    proof {
        let raw = s@.subrange(start as int, end as int);
        if end < len && end > start && s@[end - 1] == '\r' {
            assert(line@ =~= raw.drop_last());
        } else {
            assert(line@ =~= raw);
        }
    }
    line
}

/// Cuts a payload into the texts of the two slots by its lines, and by its
/// characters where it has a single line.
pub fn line_split(payload: &str) -> (r: (String, String))
    ensures
        (r.0@, r.1@) == line_slots(payload@),
{
    let len = payload.unicode_len();
    let first_break = find_newline(payload, len, 0);
    if first_break < len && first_break + 1 < len {
        let first = line_from(payload, len, 0);
        let second = line_from(payload, len, first_break + 1);
        (first, second)
    } else {
        count_split(payload)
    }
}

/// The texts of the two slots of a payload, before padding.
pub fn slot_texts(payload: &str, policy: Segmentation) -> (r: (String, String))
    ensures
        (r.0@, r.1@) == slots_of(payload@, policy),
{
    match policy {
        Segmentation::CharCount => count_split(payload),
        Segmentation::LineAware => line_split(payload),
    }
}

/// The texts of the two slots of a payload, centred to `SLOT_WIDTH` columns.
pub fn slot_lines(payload: &str, policy: Segmentation) -> (r: (String, String))
    ensures
        r.0@ == padded(slots_of(payload@, policy).0, SLOT_WIDTH as nat, true),
        r.1@ == padded(slots_of(payload@, policy).1, SLOT_WIDTH as nat, true),
{
    let (first, second) = slot_texts(payload, policy);
    (pad_text(first.as_str(), SLOT_WIDTH, true), pad_text(second.as_str(), SLOT_WIDTH, true))
}

/// Renders the frame of a payload for a terminal `terminal_width` columns wide.
pub fn create_dragon(side_dish: &str, terminal_width: usize, policy: Segmentation) -> (r: Vec<String>)
    ensures
        r@.len() == FRAME_HEIGHT,
        forall|i: int| 0 <= i < FRAME_HEIGHT ==> #[trigger] r@[i]@ == frame_of(side_dish@, terminal_width as nat, policy)[i],
{
    let (slot1, slot2) = slot_lines(side_dish, policy);
    let mut lines: Vec<String> = Vec::new();
    let mut i: usize = 0;
    while i < FRAME_HEIGHT
        invariant
            i <= FRAME_HEIGHT,
            lines@.len() == i,
            slot1@ == padded(slots_of(side_dish@, policy).0, SLOT_WIDTH as nat, true),
            slot2@ == padded(slots_of(side_dish@, policy).1, SLOT_WIDTH as nat, true),
            forall|j: int| 0 <= j < i ==> #[trigger] lines@[j]@ == frame_of(side_dish@, terminal_width as nat, policy)[j],
        decreases FRAME_HEIGHT - i,
    {
        let row = art_row(i, slot1.as_str(), slot2.as_str());
        let line = pad_text(row.as_str(), terminal_width, false);
        lines.push(line);
        i = i + 1;
    }
    lines
}


/// Under the character-count rule, the characters of a payload past twice
/// the slot capacity never reach its frame: the frame is that of the
/// payload cut to its first `2 * SLOT_CAPACITY` characters.
pub proof fn lemma_overflow_dropped(payload: Seq<char>, width: nat)
    requires
        payload.len() > 2 * SLOT_CAPACITY,
    ensures
        frame_of(payload, width, Segmentation::CharCount)
            == frame_of(payload.subrange(0, 2 * SLOT_CAPACITY as int), width, Segmentation::CharCount),
{
    let n = SLOT_CAPACITY as int;
    let kept = payload.subrange(0, 2 * n);
    assert(kept.subrange(0, n) =~= payload.subrange(0, n));
    assert(kept.subrange(n, kept.len() as int) =~= payload.subrange(n, 2 * n));
    assert(count_slots(kept) == count_slots(payload));
}

} // verus!
