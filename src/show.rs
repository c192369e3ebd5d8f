use vstd::prelude::*;

use crate::frame::{create_dragon, frame_of, pad_text, padded, Segmentation, CAPTION_WIDTH};

verus! {

/// One thing to do to the terminal.
#[derive(Debug, PartialEq, Eq)]
pub enum Step {
    /// Clear the screen.
    Clear,
    /// Sleep for this many milliseconds.
    Pause(u64),
    /// Write this line.
    Write(String),
}

/// What a step is, with its line as a sequence of characters.
pub enum StepView {
    Clear,
    Pause(u64),
    Write(Seq<char>),
}

impl View for Step {
    type V = StepView;

    open spec fn view(&self) -> StepView {
        match self {
            Step::Clear => StepView::Clear,
            Step::Pause(ms) => StepView::Pause(*ms),
            Step::Write(line) => StepView::Write(line@),
        }
    }
}

/// The views of a sequence of steps.
pub open spec fn steps_view(steps: Seq<Step>) -> Seq<StepView> {
    steps.map_values(|s: Step| s@)
}

/// The views of a sequence of strings.
pub open spec fn texts_view(texts: Seq<String>) -> Seq<Seq<char>> {
    texts.map_values(|s: String| s@)
}

/// A step that writes each of `lines`, in order.
pub open spec fn write_all(lines: Seq<Seq<char>>) -> Seq<StepView> {
    lines.map_values(|l: Seq<char>| StepView::Write(l))
}

/// A caption centred to `CAPTION_WIDTH` columns.
pub open spec fn caption_line(caption: Seq<char>) -> Seq<char> {
    padded(caption, CAPTION_WIDTH as nat, true)
}

/// The lines shown for one payload, or the blank frame and the caption.
pub open spec fn block_lines(frame: Seq<Seq<char>>, caption: Seq<char>) -> Seq<Seq<char>> {
    frame.push(caption_line(caption))
}

/// The block of a caption: the blank frame, then the caption.
pub open spec fn caption_block(caption: Seq<char>, width: nat, policy: Segmentation) -> Seq<StepView> {
    write_all(block_lines(frame_of(Seq::empty(), width, policy), caption))
}

/// The block of a payload: its frame, then a blank caption line.
pub open spec fn dish_block(dish: Seq<char>, width: nat, policy: Segmentation) -> Seq<StepView> {
    write_all(block_lines(frame_of(dish, width, policy), Seq::empty()))
}

/// Every block of a show, in order: the pre-captions, the payloads, the
/// after-captions.
pub open spec fn show_blocks(
    pre: Seq<Seq<char>>,
    dishes: Seq<Seq<char>>,
    after: Seq<Seq<char>>,
    width: nat,
    policy: Segmentation,
) -> Seq<Seq<StepView>> {
    pre.map_values(|c: Seq<char>| caption_block(c, width, policy))
        + dishes.map_values(|d: Seq<char>| dish_block(d, width, policy))
        + after.map_values(|c: Seq<char>| caption_block(c, width, policy))
}

/// What stands between two consecutive blocks: a pause and a clear when an
/// interval is set, nothing otherwise.
pub open spec fn transition(interval: Option<u64>) -> Seq<StepView> {
    match interval {
        Some(ms) => seq![StepView::Pause(ms), StepView::Clear],
        None => Seq::empty(),
    }
}

/// What comes before the first block: a clear when an interval is set.
pub open spec fn opening(interval: Option<u64>) -> Seq<StepView> {
    match interval {
        Some(_) => seq![StepView::Clear],
        None => Seq::empty(),
    }
}

/// The blocks, in order, with `sep` between each two consecutive ones.
pub open spec fn joined(blocks: Seq<Seq<StepView>>, sep: Seq<StepView>) -> Seq<StepView>
    decreases blocks.len(),
{
    if blocks.len() == 0 {
        Seq::empty()
    } else if blocks.len() == 1 {
        blocks[0]
    } else {
        joined(blocks.drop_last(), sep) + sep + blocks.last()
    }
}

/// The steps of a whole show.
pub open spec fn show_steps(
    pre: Seq<Seq<char>>,
    dishes: Seq<Seq<char>>,
    after: Seq<Seq<char>>,
    interval: Option<u64>,
    width: nat,
    policy: Segmentation,
) -> Seq<StepView> {
    opening(interval) + joined(show_blocks(pre, dishes, after, width, policy), transition(interval))
}


/// Joining one block more adds the separator and that block.
proof fn lemma_joined_take(blocks: Seq<Seq<StepView>>, sep: Seq<StepView>, n: int)
    requires
        0 <= n < blocks.len(),
    ensures
        joined(blocks.take(n + 1), sep) == if n == 0 {
            blocks[0]
        } else {
            joined(blocks.take(n), sep) + sep + blocks[n]
        },
{
    let next = blocks.take(n + 1);
    assert(next.drop_last() =~= blocks.take(n));
    assert(next.last() == blocks[n]);
    if n == 0 {
        assert(next.len() == 1);
        assert(next[0] == blocks[0]);
    }
}

/// The lines of a frame, read back as sequences of characters.
proof fn lemma_frame_view(frame: Seq<String>, dish: Seq<char>, width: nat, policy: Segmentation)
    requires
        frame.len() == crate::frame::FRAME_HEIGHT,
        forall|i: int| 0 <= i < crate::frame::FRAME_HEIGHT ==> #[trigger] frame[i]@ == frame_of(dish, width, policy)[i],
    ensures
        texts_view(frame) == frame_of(dish, width, policy),
{
    assert(texts_view(frame) =~= frame_of(dish, width, policy));
}

/// Where the block of each item stands among the blocks of a show.
proof fn lemma_show_blocks_at(
    pre: Seq<Seq<char>>,
    dishes: Seq<Seq<char>>,
    after: Seq<Seq<char>>,
    width: nat,
    policy: Segmentation,
)
    ensures
        ({
            let blocks = show_blocks(pre, dishes, after, width, policy);
            &&& blocks.len() == pre.len() + dishes.len() + after.len()
            &&& forall|k: int| 0 <= k < pre.len() ==> #[trigger] blocks[k] == caption_block(pre[k], width, policy)
            &&& forall|k: int| 0 <= k < dishes.len() ==> #[trigger] blocks[pre.len() + k] == dish_block(dishes[k], width, policy)
            &&& forall|k: int| 0 <= k < after.len() ==> #[trigger] blocks[pre.len() + dishes.len() + k] == caption_block(after[k], width, policy)
        }),
{
    let a = pre.map_values(|c: Seq<char>| caption_block(c, width, policy));
    let b = dishes.map_values(|d: Seq<char>| dish_block(d, width, policy));
    let c = after.map_values(|c: Seq<char>| caption_block(c, width, policy));
    let blocks = show_blocks(pre, dishes, after, width, policy);
    assert(blocks == a + b + c);
    assert forall|k: int| 0 <= k < dishes.len() implies #[trigger] blocks[pre.len() + k] == dish_block(dishes[k], width, policy) by {
        assert((a + b)[pre.len() + k] == b[k]);
    }
    assert forall|k: int| 0 <= k < after.len() implies #[trigger] blocks[pre.len() + dishes.len() + k] == caption_block(after[k], width, policy) by {
        assert(blocks[pre.len() + dishes.len() + k] == c[k]);
    }
}

/// Writes a frame and a caption line, after a transition unless `first`.
fn push_block(out: &mut Vec<Step>, first: bool, interval: Option<u64>, frame: &Vec<String>, caption: &String)
    ensures
        steps_view(final(out)@) == steps_view(old(out)@) + (if first {
            Seq::empty()
        } else {
            transition(interval)
        }) + write_all(texts_view(frame@).push(caption@)),
{
    let ghost start = steps_view(out@);
    if !first {
        match interval {
            Some(ms) => {
                out.push(Step::Pause(ms));
                out.push(Step::Clear);
            },
            None => {},
        }
    }
    let ghost before = steps_view(out@);
    assert(before =~= start + (if first {
        Seq::empty()
    } else {
        transition(interval)
    }));
    let ghost lines = texts_view(frame@).push(caption@);
    let mut i: usize = 0;
    while i < frame.len()
        invariant
            i <= frame@.len(),
            lines == texts_view(frame@).push(caption@),
            steps_view(out@) =~= before + write_all(lines.take(i as int)),
        decreases frame@.len() - i,
    {
        let ghost prev = out@;
        let line = frame[i].clone();
        out.push(Step::Write(line));
        assert(lines[i as int] == frame@[i as int]@);
        assert(steps_view(out@) =~= steps_view(prev).push(StepView::Write(lines[i as int])));
        i = i + 1;
        assert(write_all(lines.take(i as int)) =~= write_all(lines.take(i - 1)).push(StepView::Write(lines[i - 1])));
    }
    let ghost prev = out@;
    out.push(Step::Write(caption.clone()));
    assert(steps_view(out@) =~= steps_view(prev).push(StepView::Write(caption@)));
    assert(write_all(lines) =~= write_all(lines.take(frame@.len() as int)).push(StepView::Write(caption@)));
}

/// The lines of the frame of one payload followed by its caption, centred to
/// `CAPTION_WIDTH` columns (a blank line when there is none).
pub fn say_lines(side_dish: &str, caption: Option<&str>, terminal_width: usize, policy: Segmentation) -> (r: Vec<String>)
    ensures
        texts_view(r@) == block_lines(
            frame_of(side_dish@, terminal_width as nat, policy),
            match caption {
                Some(c) => c@,
                None => Seq::empty(),
            },
        ),
{
    let mut lines = create_dragon(side_dish, terminal_width, policy);
    proof {
        lemma_frame_view(lines@, side_dish@, terminal_width as nat, policy);
        reveal_strlit("");
        assert(""@ =~= Seq::<char>::empty());
    }
    let text: &str = match caption {
        Some(c) => c,
        None => "",
    };
    let line = pad_text(text, CAPTION_WIDTH, true);
    let ghost frame = lines@;
    lines.push(line);
    assert(texts_view(lines@) =~= texts_view(frame).push(line@));
    lines
}

/// Plans a show: each pre-caption under the blank frame, the frame of each
/// payload, each after-caption under the blank frame; with an interval, the
/// screen is cleared first and each two consecutive blocks are parted by a
/// pause of that many milliseconds and a clear.
pub fn anime_steps(
    pre_captions: &Vec<String>,
    side_dishes: &Vec<String>,
    after_captions: &Vec<String>,
    interval: Option<u64>,
    terminal_width: usize,
    policy: Segmentation,
) -> (r: Vec<Step>)
    ensures
        steps_view(r@) == show_steps(
            texts_view(pre_captions@),
            texts_view(side_dishes@),
            texts_view(after_captions@),
            interval,
            terminal_width as nat,
            policy,
        ),
{
    let ghost width = terminal_width as nat;
    let ghost pre = texts_view(pre_captions@);
    let ghost dishes = texts_view(side_dishes@);
    let ghost after = texts_view(after_captions@);
    let ghost blocks = show_blocks(pre, dishes, after, width, policy);
    let ghost sep = transition(interval);
    proof {
        lemma_show_blocks_at(pre, dishes, after, width, policy);
    }
    let mut out: Vec<Step> = Vec::new();
    match interval {
        Some(_) => out.push(Step::Clear),
        None => {},
    }
    assert(steps_view(out@) =~= opening(interval));
    assert(blocks.take(0) =~= Seq::<Seq<StepView>>::empty());
    let blank = create_dragon("", terminal_width, policy);
    let blank_caption = pad_text("", CAPTION_WIDTH, true);
    proof {
        reveal_strlit("");
        assert(""@ =~= Seq::<char>::empty());
        lemma_frame_view(blank@, Seq::empty(), width, policy);
    }
    let mut printed = false;
    let ghost mut done: int = 0;

    let mut i: usize = 0;
    while i < pre_captions.len()
        invariant
            i <= pre_captions@.len(),
            done == i,
            printed == (done > 0),
            pre == texts_view(pre_captions@),
            forall|k: int| 0 <= k < pre.len() ==> #[trigger] blocks[k] == caption_block(pre[k], width, policy),
            blocks.len() == pre.len() + dishes.len() + after.len(),
            sep == transition(interval),
            texts_view(blank@) == frame_of(Seq::empty(), width, policy),
            steps_view(out@) == opening(interval) + joined(blocks.take(done), sep),
        decreases pre_captions@.len() - i,
    {
        let caption = pad_text(pre_captions[i].as_str(), CAPTION_WIDTH, true);
        push_block(&mut out, !printed, interval, &blank, &caption);
        proof {
            assert(blocks[done] == caption_block(pre[done], width, policy));
            assert(pre[done] == pre_captions@[done]@);
            lemma_joined_take(blocks, sep, done);
            done = done + 1;
        }
        printed = true;
        i = i + 1;
    }

    let mut i: usize = 0;
    while i < side_dishes.len()
        invariant
            i <= side_dishes@.len(),
            done == pre.len() + i,
            printed == (done > 0),
            pre == texts_view(pre_captions@),
            dishes == texts_view(side_dishes@),
            width == terminal_width as nat,
            forall|k: int| 0 <= k < dishes.len() ==> #[trigger] blocks[pre.len() + k] == dish_block(dishes[k], width, policy),
            blocks.len() == pre.len() + dishes.len() + after.len(),
            sep == transition(interval),
            blank_caption@ == caption_line(Seq::empty()),
            steps_view(out@) == opening(interval) + joined(blocks.take(done), sep),
        decreases side_dishes@.len() - i,
    {
        let dish: &str = side_dishes[i].as_str();
        let frame = create_dragon(dish, terminal_width, policy);
        proof {
            assert(dishes[i as int] == side_dishes@[i as int]@);
            assert(dish@ == dishes[i as int]);
            lemma_frame_view(frame@, dishes[i as int], width, policy);
        }
        push_block(&mut out, !printed, interval, &frame, &blank_caption);
        proof {
            assert(blocks[pre.len() + i] == dish_block(dishes[i as int], width, policy));
            lemma_joined_take(blocks, sep, done);
            done = done + 1;
        }
        printed = true;
        i = i + 1;
    }

    let mut i: usize = 0;
    while i < after_captions.len()
        invariant
            i <= after_captions@.len(),
            done == pre.len() + dishes.len() + i,
            printed == (done > 0),
            pre == texts_view(pre_captions@),
            dishes == texts_view(side_dishes@),
            after == texts_view(after_captions@),
            forall|k: int| 0 <= k < after.len() ==> #[trigger] blocks[pre.len() + dishes.len() + k] == caption_block(after[k], width, policy),
            blocks.len() == pre.len() + dishes.len() + after.len(),
            sep == transition(interval),
            texts_view(blank@) == frame_of(Seq::empty(), width, policy),
            steps_view(out@) == opening(interval) + joined(blocks.take(done), sep),
        decreases after_captions@.len() - i,
    {
        let caption = pad_text(after_captions[i].as_str(), CAPTION_WIDTH, true);
        push_block(&mut out, !printed, interval, &blank, &caption);
        proof {
            assert(blocks[pre.len() + dishes.len() + i] == caption_block(after[i as int], width, policy));
            assert(after[i as int] == after_captions@[i as int]@);
            lemma_joined_take(blocks, sep, done);
            done = done + 1;
        }
        printed = true;
        i = i + 1;
    }
    assert(blocks.take(done) =~= blocks);
    out
}


/// How many steps of `steps` satisfy `f`.
pub open spec fn count_where(steps: Seq<StepView>, f: spec_fn(StepView) -> bool) -> nat
    decreases steps.len(),
{
    if steps.len() == 0 {
        0
    } else {
        count_where(steps.drop_last(), f) + if f(steps.last()) {
            1nat
        } else {
            0nat
        }
    }
}

/// Whether a step is a pause.
pub open spec fn is_pause(step: StepView) -> bool {
    step is Pause
}

/// Whether a step is a clear of the screen.
pub open spec fn is_clear(step: StepView) -> bool {
    step is Clear
}

/// The number of transitions of an animated show with `n` pre-captions, `m`
/// payloads and `k` after-captions: one between each two items of a list, and
/// one at each boundary between a list and a later non-empty list, provided
/// something came before.
pub open spec fn transition_total(n: int, m: int, k: int) -> int {
    (if n > 0 { n - 1 } else { 0 }) + (if n > 0 && m > 0 { 1int } else { 0 }) + (if m > 0 { m - 1 } else { 0 })
        + (if (n > 0 || m > 0) && k > 0 { 1int } else { 0 }) + (if k > 0 { k - 1 } else { 0 })
}

proof fn lemma_count_add(a: Seq<StepView>, b: Seq<StepView>, f: spec_fn(StepView) -> bool)
    ensures
        count_where(a + b, f) == count_where(a, f) + count_where(b, f),
    decreases b.len(),
{
    if b.len() == 0 {
        assert(a + b =~= a);
    } else {
        assert((a + b).drop_last() =~= a + b.drop_last());
        assert((a + b).last() == b.last());
        lemma_count_add(a, b.drop_last(), f);
    }
}

proof fn lemma_count_writes(lines: Seq<Seq<char>>, f: spec_fn(StepView) -> bool)
    requires
        forall|l: Seq<char>| !#[trigger] f(StepView::Write(l)),
    ensures
        count_where(write_all(lines), f) == 0,
        write_all(lines).len() == lines.len(),
    decreases lines.len(),
{
    if lines.len() > 0 {
        assert(write_all(lines).drop_last() =~= write_all(lines.drop_last()));
        assert(write_all(lines).last() == StepView::Write(lines.last()));
        lemma_count_writes(lines.drop_last(), f);
    }
}

proof fn lemma_count_joined(blocks: Seq<Seq<StepView>>, sep: Seq<StepView>, f: spec_fn(StepView) -> bool)
    requires
        blocks.len() > 0,
        forall|k: int| 0 <= k < blocks.len() ==> count_where(#[trigger] blocks[k], f) == 0,
    ensures
        count_where(joined(blocks, sep), f) == (blocks.len() - 1) * count_where(sep, f),
    decreases blocks.len(),
{
    if blocks.len() > 1 {
        let rest = blocks.drop_last();
        assert forall|k: int| 0 <= k < rest.len() implies count_where(#[trigger] rest[k], f) == 0 by {
            assert(rest[k] == blocks[k]);
        }
        lemma_count_joined(rest, sep, f);
        lemma_count_add(joined(rest, sep), sep, f);
        lemma_count_add(joined(rest, sep) + sep, blocks.last(), f);
        let c = count_where(sep, f);
        let n = blocks.len() as int;
        assert(count_where(blocks[n - 1], f) == 0);
        assert(blocks.last() == blocks[n - 1]);
        assert((n - 2) * c + c == (n - 1) * c) by (nonlinear_arith);
    } else {
        assert(count_where(blocks[0], f) == 0);
    }
}

/// The blocks of a show write lines and do nothing else.
proof fn lemma_blocks_write_only(
    pre: Seq<Seq<char>>,
    dishes: Seq<Seq<char>>,
    after: Seq<Seq<char>>,
    width: nat,
    policy: Segmentation,
    f: spec_fn(StepView) -> bool,
)
    requires
        forall|l: Seq<char>| !#[trigger] f(StepView::Write(l)),
    ensures
        forall|k: int|
            0 <= k < show_blocks(pre, dishes, after, width, policy).len() ==> {
                &&& count_where(#[trigger] show_blocks(pre, dishes, after, width, policy)[k], f) == 0
                &&& show_blocks(pre, dishes, after, width, policy)[k].len() > 0
            },
{
    let blocks = show_blocks(pre, dishes, after, width, policy);
    let blank = frame_of(Seq::empty(), width, policy);
    lemma_show_blocks_at(pre, dishes, after, width, policy);
    assert forall|k: int| 0 <= k < blocks.len() implies {
        &&& count_where(#[trigger] blocks[k], f) == 0
        &&& blocks[k].len() > 0
    } by {
        if k < pre.len() {
            lemma_count_writes(block_lines(blank, pre[k]), f);
        } else if k < pre.len() + dishes.len() {
            let j = k - pre.len();
            assert(blocks[pre.len() + j] == dish_block(dishes[j], width, policy));
            lemma_count_writes(block_lines(frame_of(dishes[j], width, policy), Seq::empty()), f);
        } else {
            let j = k - pre.len() - dishes.len();
            assert(blocks[pre.len() + dishes.len() + j] == caption_block(after[j], width, policy));
            lemma_count_writes(block_lines(blank, after[j]), f);
        }
    }
}

/// The last step of the blocks joined is the last step of the last block.
proof fn lemma_joined_last(blocks: Seq<Seq<StepView>>, sep: Seq<StepView>)
    requires
        blocks.len() > 0,
        blocks.last().len() > 0,
    ensures
        joined(blocks, sep).len() > 0,
        joined(blocks, sep).last() == blocks.last().last(),
{
    if blocks.len() > 1 {
        let front = joined(blocks.drop_last(), sep) + sep;
        assert((front + blocks.last()).last() == blocks.last().last());
    }
}

/// An animated show with `n` pre-captions, `m` payloads and `k`
/// after-captions pauses and clears the screen `transition_total(n, m, k)`
/// times between its blocks, clears it once more before the first block, and
/// ends on a line written, with no clear after the last item.
pub proof fn lemma_transition_count(
    pre: Seq<Seq<char>>,
    dishes: Seq<Seq<char>>,
    after: Seq<Seq<char>>,
    interval: u64,
    width: nat,
    policy: Segmentation,
)
    ensures
        count_where(show_steps(pre, dishes, after, Some(interval), width, policy), |x: StepView| is_pause(x))
            == transition_total(pre.len() as int, dishes.len() as int, after.len() as int),
        count_where(show_steps(pre, dishes, after, Some(interval), width, policy), |x: StepView| is_clear(x))
            == transition_total(pre.len() as int, dishes.len() as int, after.len() as int) + 1,
        pre.len() + dishes.len() + after.len() > 0 ==> show_steps(pre, dishes, after, Some(interval), width, policy).last() is Write,
{
    let blocks = show_blocks(pre, dishes, after, width, policy);
    let sep = transition(Some(interval));
    let open = opening(Some(interval));
    let pauses = |x: StepView| is_pause(x);
    let clears = |x: StepView| is_clear(x);
    lemma_show_blocks_at(pre, dishes, after, width, policy);
    lemma_blocks_write_only(pre, dishes, after, width, policy, pauses);
    lemma_blocks_write_only(pre, dishes, after, width, policy, clears);
    lemma_count_add(open, joined(blocks, sep), pauses);
    lemma_count_add(open, joined(blocks, sep), clears);
    assert(open.drop_last() =~= Seq::<StepView>::empty());
    assert(sep.drop_last() =~= seq![StepView::Pause(interval)]);
    assert(sep.drop_last().drop_last() =~= Seq::<StepView>::empty());
    assert(sep.last() == StepView::Clear);
    assert(sep.drop_last().last() == StepView::Pause(interval));
    assert(count_where(sep.drop_last().drop_last(), pauses) == 0);
    assert(count_where(sep.drop_last().drop_last(), clears) == 0);
    assert(count_where(sep.drop_last(), pauses) == 1);
    assert(count_where(sep.drop_last(), clears) == 0);
    assert(count_where(sep, pauses) == 1);
    assert(count_where(sep, clears) == 1);
    assert(count_where(open, pauses) == 0);
    assert(count_where(open, clears) == 1);
    if blocks.len() > 0 {
        lemma_count_joined(blocks, sep, pauses);
        lemma_count_joined(blocks, sep, clears);
        lemma_joined_last(blocks, sep);
        let all = open + joined(blocks, sep);
        assert(all.last() == joined(blocks, sep).last());
        let last_lines = if after.len() > 0 {
            block_lines(frame_of(Seq::empty(), width, policy), after.last())
        } else if dishes.len() > 0 {
            block_lines(frame_of(dishes.last(), width, policy), Seq::empty())
        } else {
            block_lines(frame_of(Seq::empty(), width, policy), pre.last())
        };
        if after.len() > 0 {
            assert(blocks.last() == blocks[pre.len() + dishes.len() + (after.len() - 1)]);
        } else if dishes.len() > 0 {
            assert(blocks.last() == blocks[pre.len() + (dishes.len() - 1)]);
        }
        assert(blocks.last() == write_all(last_lines));
        assert(write_all(last_lines).last() == StepView::Write(last_lines.last()));
    } else {
        assert(count_where(Seq::<StepView>::empty(), pauses) == 0);
    }
}

/// A show without an interval never pauses and never clears the screen.
pub proof fn lemma_static_show(
    pre: Seq<Seq<char>>,
    dishes: Seq<Seq<char>>,
    after: Seq<Seq<char>>,
    width: nat,
    policy: Segmentation,
)
    ensures
        count_where(show_steps(pre, dishes, after, None, width, policy), |x: StepView| is_pause(x)) == 0,
        count_where(show_steps(pre, dishes, after, None, width, policy), |x: StepView| is_clear(x)) == 0,
{
    let blocks = show_blocks(pre, dishes, after, width, policy);
    let sep = transition(None);
    let pauses = |x: StepView| is_pause(x);
    let clears = |x: StepView| is_clear(x);
    lemma_blocks_write_only(pre, dishes, after, width, policy, pauses);
    lemma_blocks_write_only(pre, dishes, after, width, policy, clears);
    assert(show_steps(pre, dishes, after, None, width, policy) =~= joined(blocks, sep));
    if blocks.len() > 0 {
        lemma_count_joined(blocks, sep, pauses);
        lemma_count_joined(blocks, sep, clears);
    }
}

} // verus!
