//! Vertical layout of a page: where each wrapped line, list marker and rule
//! goes, and how tall the page is. Lengths are CSS pixels.
use crate::flow::{blocks_view, BlockView, FlowBlock};
use crate::page::strings_view;
use crate::wrap::{lemma_wrap_flow_has_a_line, lemma_wrap_pre_has_a_line, wrap_flow, wrap_pre};
use vstd::prelude::*;

verus! {

/// Space left and right of the content.
pub const PAD_X: u64 = 18;

/// Space above and below the content.
pub const PAD_Y: u64 = 18;

/// Space between the title and the first block.
pub const TITLE_GAP: u64 = 14;

/// Line height of the title, of paragraphs and of list items.
pub const TEXT_LINE_HEIGHT: u64 = 22;

/// Line height of preformatted text.
pub const PRE_LINE_HEIGHT: u64 = 20;

/// Indentation of list item text, besides the width of the marker.
pub const LIST_INDENT: u64 = 18;

/// The style of a line of text.
#[derive(PartialEq, Eq, Structural, Clone, Copy, Debug)]
pub enum LineStyle {
    Title,
    Heading(u8),
    Paragraph,
    Pre,
    ListItem,
}

/// One thing to paint.
pub enum DrawOp {
    /// A line of text whose baseline is at `baseline`; list item text starts
    /// after the marker.
    Text { style: LineStyle, after_marker: bool, baseline: u64, text: String },
    /// A list marker at the left margin.
    Marker { baseline: u64, text: String },
    /// A horizontal rule across the content at `y`.
    Rule { y: u64 },
}

/// The mathematical value of a [`DrawOp`].
pub enum OpView {
    Text { style: LineStyle, after_marker: bool, baseline: nat, text: Seq<char> },
    Marker { baseline: nat, text: Seq<char> },
    Rule { y: nat },
}

impl View for DrawOp {
    type V = OpView;

    open spec fn view(&self) -> OpView {
        match self {
            DrawOp::Text { style, after_marker, baseline, text } => OpView::Text {
                style: *style,
                after_marker: *after_marker,
                baseline: *baseline as nat,
                text: text@,
            },
            DrawOp::Marker { baseline, text } => OpView::Marker {
                baseline: *baseline as nat,
                text: text@,
            },
            DrawOp::Rule { y } => OpView::Rule { y: *y as nat },
        }
    }
}

/// The views of a sequence of operations.
pub open spec fn ops_view(v: Seq<DrawOp>) -> Seq<OpView> {
    v.map_values(|o: DrawOp| o@)
}

/// The operations that paint a page, and its height.
pub struct PagePlan {
    pub ops: Vec<DrawOp>,
    pub height: u64,
}

// ---------------------------------------------------------------------------
// Specification
// ---------------------------------------------------------------------------

/// The font of a heading of `level`.
pub open spec fn heading_font(level: u8) -> Seq<char> {
    if level == 1 {
        "700 28px ui-sans-serif, system-ui, sans-serif"@
    } else if level == 2 {
        "700 22px ui-sans-serif, system-ui, sans-serif"@
    } else if level == 3 {
        "650 19px ui-sans-serif, system-ui, sans-serif"@
    } else if level == 4 {
        "650 17px ui-sans-serif, system-ui, sans-serif"@
    } else {
        "600 16px ui-sans-serif, system-ui, sans-serif"@
    }
}

/// The line height of a heading of `level`.
pub open spec fn heading_line_height(level: u8) -> nat {
    if level == 1 {
        32
    } else if level == 2 {
        26
    } else if level == 3 {
        24
    } else {
        22
    }
}

/// The space after a heading of `level`.
pub open spec fn heading_gap(level: u8) -> nat {
    if level == 1 {
        14
    } else if level == 2 {
        12
    } else if level == 3 {
        10
    } else {
        8
    }
}

/// The height of `n` lines of height `lh`.
pub open spec fn lines_height(n: nat, lh: nat) -> nat {
    n * lh
}

/// The height a block takes with `n` wrapped lines, the space after it
/// included; a heading without text takes none.
pub open spec fn block_height(b: BlockView, n: nat) -> nat {
    match b {
        BlockView::Heading { level, text } => if text.len() == 0 {
            0
        } else {
            lines_height(n, heading_line_height(level)) + heading_gap(level)
        },
        BlockView::Paragraph { .. } => lines_height(n, 22) + 10,
        BlockView::Pre { .. } => lines_height(n, 20) + 10,
        BlockView::ListItem { .. } => lines_height(n, 22) + 4,
        BlockView::Rule => 20,
    }
}

/// The height of the blocks `bs`, whose wrapped lines are `ls`.
pub open spec fn blocks_height(bs: Seq<BlockView>, ls: Seq<Seq<Seq<char>>>) -> nat
    decreases bs.len(),
{
    if bs.len() == 0 {
        0
    } else {
        blocks_height(bs.drop_last(), ls.drop_last()) + block_height(bs.last(), ls.last().len())
    }
}

/// Where the first block starts, under a title of `title_n` lines.
pub open spec fn body_top(title_n: nat) -> nat {
    PAD_Y as nat + lines_height(title_n, 22) + TITLE_GAP as nat
}

/// The height of the page.
pub open spec fn content_height(
    title_lines: Seq<Seq<char>>,
    bs: Seq<BlockView>,
    ls: Seq<Seq<Seq<char>>>,
) -> nat {
    body_top(title_lines.len()) + blocks_height(bs, ls) + PAD_Y as nat
}

/// The text operations for `lines` of height `lh`, the first line's top at `top`.
pub open spec fn lines_ops(
    style: LineStyle,
    after_marker: bool,
    top: nat,
    lh: nat,
    lines: Seq<Seq<char>>,
) -> Seq<OpView> {
    Seq::new(
        lines.len(),
        |j: int|
            OpView::Text {
                style,
                after_marker,
                baseline: (top + lines_height((j + 1) as nat, lh)) as nat,
                text: lines[j],
            },
    )
}

/// The operations of one block starting at `top`, with its wrapped `lines`.
pub open spec fn block_ops(b: BlockView, lines: Seq<Seq<char>>, top: nat) -> Seq<OpView> {
    match b {
        BlockView::Heading { level, text } => if text.len() == 0 {
            seq![]
        } else {
            lines_ops(LineStyle::Heading(level), false, top, heading_line_height(level), lines)
        },
        BlockView::Paragraph { .. } => lines_ops(LineStyle::Paragraph, false, top, 22, lines),
        BlockView::Pre { .. } => lines_ops(LineStyle::Pre, false, top, 20, lines),
        BlockView::ListItem { marker, .. } => if lines.len() == 0 {
            seq![]
        } else {
            seq![OpView::Marker { baseline: top + 22, text: marker }] + lines_ops(
                LineStyle::ListItem,
                true,
                top,
                22,
                lines,
            )
        },
        BlockView::Rule => seq![OpView::Rule { y: top + 6 }],
    }
}

/// The operations of the blocks `bs`, the first starting at `top`.
pub open spec fn blocks_ops(bs: Seq<BlockView>, ls: Seq<Seq<Seq<char>>>, top: nat) -> Seq<OpView>
    decreases bs.len(),
{
    if bs.len() == 0 {
        seq![]
    } else {
        blocks_ops(bs.drop_last(), ls.drop_last(), top) + block_ops(
            bs.last(),
            ls.last(),
            top + blocks_height(bs.drop_last(), ls.drop_last()),
        )
    }
}

/// The operations that paint the page: the title, then the blocks.
pub open spec fn page_ops(
    title_lines: Seq<Seq<char>>,
    bs: Seq<BlockView>,
    ls: Seq<Seq<Seq<char>>>,
) -> Seq<OpView> {
    lines_ops(LineStyle::Title, false, PAD_Y as nat, 22, title_lines) + blocks_ops(
        bs,
        ls,
        body_top(title_lines.len()),
    )
}

/// The views of the wrapped lines of each block.
pub open spec fn lines_view(v: Seq<Vec<String>>) -> Seq<Seq<Seq<char>>> {
    v.map_values(|l: Vec<String>| strings_view(l@))
}

/// The font of lines of `style`.
pub open spec fn style_font(style: LineStyle) -> Seq<char> {
    match style {
        LineStyle::Title => "600 17px ui-sans-serif, system-ui, sans-serif"@,
        LineStyle::Heading(level) => heading_font(level),
        LineStyle::Paragraph => "16px ui-sans-serif, system-ui, sans-serif"@,
        LineStyle::Pre => "14px ui-monospace, SFMono-Regular, Menlo, monospace"@,
        LineStyle::ListItem => "16px ui-sans-serif, system-ui, sans-serif"@,
    }
}

// ---------------------------------------------------------------------------
// Lemmas
// ---------------------------------------------------------------------------

proof fn lemma_mul_mono(a: nat, b: nat, c: nat)
    by (nonlinear_arith)
    requires
        a <= b,
    ensures
        a * c <= b * c,
{
}

proof fn lemma_mul_succ(a: nat, c: nat)
    by (nonlinear_arith)
    ensures
        (a + 1) * c == a * c + c,
{
}

proof fn lemma_blocks_height_step(bs: Seq<BlockView>, ls: Seq<Seq<Seq<char>>>, i: int)
    requires
        0 <= i < bs.len(),
        bs.len() == ls.len(),
    ensures
        blocks_height(bs.take(i + 1), ls.take(i + 1)) == blocks_height(bs.take(i), ls.take(i))
            + block_height(bs[i], ls[i].len()),
        blocks_ops(bs.take(i + 1), ls.take(i + 1), 0) == blocks_ops(bs.take(i), ls.take(i), 0)
            + block_ops(bs[i], ls[i], blocks_height(bs.take(i), ls.take(i))),
{
    assert(bs.take(i + 1).drop_last() == bs.take(i));
    assert(ls.take(i + 1).drop_last() == ls.take(i));
}

proof fn lemma_blocks_ops_step(bs: Seq<BlockView>, ls: Seq<Seq<Seq<char>>>, i: int, top: nat)
    requires
        0 <= i < bs.len(),
        bs.len() == ls.len(),
    ensures
        blocks_ops(bs.take(i + 1), ls.take(i + 1), top) == blocks_ops(bs.take(i), ls.take(i), top)
            + block_ops(bs[i], ls[i], top + blocks_height(bs.take(i), ls.take(i))),
{
    assert(bs.take(i + 1).drop_last() == bs.take(i));
    assert(ls.take(i + 1).drop_last() == ls.take(i));
}

/// A block starts no lower than the blocks before it end, and the page is at
/// least as tall as any of its first blocks.
pub proof fn lemma_blocks_height_prefix(bs: Seq<BlockView>, ls: Seq<Seq<Seq<char>>>, i: int)
    requires
        0 <= i < bs.len(),
        bs.len() == ls.len(),
    ensures
        blocks_height(bs.take(i), ls.take(i)) + block_height(bs[i], ls[i].len()) <= blocks_height(
            bs,
            ls,
        ),
    decreases bs.len(),
{
    if i == bs.len() - 1 {
        assert(bs.take(i) == bs.drop_last());
        assert(ls.take(i) == ls.drop_last());
    } else {
        lemma_blocks_height_prefix(bs.drop_last(), ls.drop_last(), i);
        assert(bs.drop_last().take(i) == bs.take(i));
        assert(ls.drop_last().take(i) == ls.take(i));
        assert(bs.drop_last()[i] == bs[i]);
        assert(ls.drop_last()[i] == ls[i]);
    }
}

proof fn lemma_lines_view_len(v: Seq<Vec<String>>)
    ensures
        lines_view(v).len() == v.len(),
        forall|i: int| 0 <= i < v.len() ==> #[trigger] lines_view(v)[i] == strings_view(v[i]@),
{
}


/// How far down an operation paints: a baseline, or the rule's height.
pub open spec fn op_y(o: OpView) -> nat {
    match o {
        OpView::Text { baseline, .. } => baseline,
        OpView::Marker { baseline, .. } => baseline,
        OpView::Rule { y } => y,
    }
}

/// Every operation of `s` paints at or above `limit`.
pub open spec fn ops_within(s: Seq<OpView>, limit: nat) -> bool {
    forall|i: int| 0 <= i < s.len() ==> op_y(#[trigger] s[i]) <= limit
}

proof fn lemma_ops_within_concat(a: Seq<OpView>, b: Seq<OpView>, limit: nat)
    requires
        ops_within(a, limit),
        ops_within(b, limit),
    ensures
        ops_within(a + b, limit),
{
    assert forall|i: int| 0 <= i < (a + b).len() implies op_y(#[trigger] (a + b)[i]) <= limit by {
        if i < a.len() {
            assert((a + b)[i] == a[i]);
        } else {
            assert((a + b)[i] == b[i - a.len()]);
        }
    }
}

proof fn lemma_lines_ops_within(
    style: LineStyle,
    after_marker: bool,
    top: nat,
    lh: nat,
    lines: Seq<Seq<char>>,
)
    ensures
        ops_within(lines_ops(style, after_marker, top, lh, lines), top + lines_height(lines.len(), lh)),
{
    let s = lines_ops(style, after_marker, top, lh, lines);
    assert forall|i: int| 0 <= i < s.len() implies op_y(#[trigger] s[i]) <= top + lines_height(
        lines.len(),
        lh,
    ) by {
        lemma_mul_mono((i + 1) as nat, lines.len(), lh);
    }
}

proof fn lemma_block_ops_within(b: BlockView, lines: Seq<Seq<char>>, top: nat)
    ensures
        ops_within(block_ops(b, lines, top), top + block_height(b, lines.len())),
{
    let limit: nat = top + block_height(b, lines.len());
    match b {
        BlockView::Heading { level, text } => {
            if text.len() > 0 {
                lemma_lines_ops_within(
                    LineStyle::Heading(level),
                    false,
                    top,
                    heading_line_height(level),
                    lines,
                );
            }
        },
        BlockView::Paragraph { .. } => {
            lemma_lines_ops_within(LineStyle::Paragraph, false, top, 22, lines);
        },
        BlockView::Pre { .. } => {
            lemma_lines_ops_within(LineStyle::Pre, false, top, 20, lines);
        },
        BlockView::ListItem { marker, .. } => {
            if lines.len() > 0 {
                lemma_lines_ops_within(LineStyle::ListItem, true, top, 22, lines);
                lemma_mul_mono(1, lines.len(), 22);
                let m = seq![OpView::Marker { baseline: top + 22, text: marker }];
                lemma_ops_within_concat(
                    m,
                    lines_ops(LineStyle::ListItem, true, top, 22, lines),
                    limit,
                );
            }
        },
        BlockView::Rule => {},
    }
}

proof fn lemma_blocks_ops_within(bs: Seq<BlockView>, ls: Seq<Seq<Seq<char>>>, top: nat)
    requires
        bs.len() == ls.len(),
    ensures
        ops_within(blocks_ops(bs, ls, top), top + blocks_height(bs, ls)),
    decreases bs.len(),
{
    if bs.len() > 0 {
        let limit: nat = top + blocks_height(bs, ls);
        let h: nat = blocks_height(bs.drop_last(), ls.drop_last());
        lemma_blocks_ops_within(bs.drop_last(), ls.drop_last(), top);
        lemma_block_ops_within(bs.last(), ls.last(), top + h);
        lemma_ops_within_concat(
            blocks_ops(bs.drop_last(), ls.drop_last(), top),
            block_ops(bs.last(), ls.last(), top + h),
            limit,
        );
    }
}

/// Everything the layout paints lies on the page whose height it measures:
/// no baseline or rule is lower than the height less the bottom padding.
pub proof fn lemma_layout_within_height(
    title_lines: Seq<Seq<char>>,
    bs: Seq<BlockView>,
    ls: Seq<Seq<Seq<char>>>,
)
    requires
        bs.len() == ls.len(),
    ensures
        ops_within(
            page_ops(title_lines, bs, ls),
            (content_height(title_lines, bs, ls) - PAD_Y) as nat,
        ),
{
    let limit: nat = (content_height(title_lines, bs, ls) - PAD_Y) as nat;
    lemma_lines_ops_within(LineStyle::Title, false, PAD_Y as nat, 22, title_lines);
    lemma_blocks_ops_within(bs, ls, body_top(title_lines.len()));
    lemma_ops_within_concat(
        lines_ops(LineStyle::Title, false, PAD_Y as nat, 22, title_lines),
        blocks_ops(bs, ls, body_top(title_lines.len())),
        limit,
    );
}

/// Appending a block to a page makes it taller by the block's height: a rule
/// by 20, a heading without text by nothing, and any other block with at
/// least one line by at least 20.
pub proof fn lemma_append_block_height(
    title_lines: Seq<Seq<char>>,
    bs: Seq<BlockView>,
    ls: Seq<Seq<Seq<char>>>,
    b: BlockView,
    lines: Seq<Seq<char>>,
)
    requires
        bs.len() == ls.len(),
    ensures
        content_height(title_lines, bs.push(b), ls.push(lines)) == content_height(title_lines, bs, ls)
            + block_height(b, lines.len()),
        b is Rule ==> block_height(b, lines.len()) == 20,
        b matches BlockView::Heading { text, .. } && text.len() == 0 ==> block_height(b, lines.len()) == 0,
        !(b is Rule) && !(b matches BlockView::Heading { text, .. } && text.len() == 0) && lines.len() >= 1
            ==> block_height(b, lines.len()) >= 20,
{
    assert(bs.push(b).drop_last() == bs);
    assert(ls.push(lines).drop_last() == ls);
    if lines.len() >= 1 {
        lemma_mul_mono(1, lines.len(), 20);
        lemma_mul_mono(1, lines.len(), 22);
        lemma_mul_mono(1, lines.len(), 24);
        lemma_mul_mono(1, lines.len(), 26);
        lemma_mul_mono(1, lines.len(), 32);
    }
}

/// The lines that a block is broken into when `wide` tells which lines are
/// too wide for it: flowing text between words, preformatted text between
/// characters, and no line for a rule.
pub open spec fn block_lines(b: BlockView, wide: spec_fn(Seq<char>) -> bool) -> Seq<Seq<char>> {
    match b {
        BlockView::Heading { text, .. } => wrap_flow(text, true, wide),
        BlockView::Paragraph { text } => wrap_flow(text, true, wide),
        BlockView::Pre { text } => wrap_pre(text, wide),
        BlockView::ListItem { text, .. } => wrap_flow(text, true, wide),
        BlockView::Rule => seq![],
    }
}

/// Appending a broken block to a page makes it taller by the block's height:
/// a rule by 20, a heading without text by nothing, and every other block,
/// whatever its text and widths, by at least 20.
pub proof fn lemma_append_broken_block_height(
    title_lines: Seq<Seq<char>>,
    bs: Seq<BlockView>,
    ls: Seq<Seq<Seq<char>>>,
    b: BlockView,
    wide: spec_fn(Seq<char>) -> bool,
)
    requires
        bs.len() == ls.len(),
    ensures
        content_height(title_lines, bs.push(b), ls.push(block_lines(b, wide))) == content_height(
            title_lines,
            bs,
            ls,
        ) + block_height(b, block_lines(b, wide).len()),
        b is Rule ==> block_height(b, block_lines(b, wide).len()) == 20,
        b matches BlockView::Heading { text, .. } && text.len() == 0 ==> block_height(
            b,
            block_lines(b, wide).len(),
        ) == 0,
        !(b is Rule) && !(b matches BlockView::Heading { text, .. } && text.len() == 0)
            ==> block_height(b, block_lines(b, wide).len()) >= 20,
{
    match b {
        BlockView::Heading { text, .. } => lemma_wrap_flow_has_a_line(text, true, wide),
        BlockView::Paragraph { text } => lemma_wrap_flow_has_a_line(text, true, wide),
        BlockView::Pre { text } => lemma_wrap_pre_has_a_line(text, wide),
        BlockView::ListItem { text, .. } => lemma_wrap_flow_has_a_line(text, true, wide),
        BlockView::Rule => {},
    }
    lemma_append_block_height(title_lines, bs, ls, b, block_lines(b, wide));
}

proof fn lemma_append_block(
    t: Seq<Seq<char>>,
    bs: Seq<BlockView>,
    ls: Seq<Seq<Seq<char>>>,
    b: BlockView,
    lines: Seq<Seq<char>>,
)
    requires
        bs.len() == ls.len(),
    ensures
        content_height(t, bs, ls) >= PAD_Y,
        content_height(t, bs.push(b), ls.push(lines)) == content_height(t, bs, ls) + block_height(
            b,
            lines.len(),
        ),
        page_ops(t, bs.push(b), ls.push(lines)) == page_ops(t, bs, ls) + block_ops(
            b,
            lines,
            (content_height(t, bs, ls) - PAD_Y) as nat,
        ),
{
    assert(bs.push(b).drop_last() == bs);
    assert(ls.push(lines).drop_last() == ls);
    let title = lines_ops(LineStyle::Title, false, PAD_Y as nat, 22, t);
    let top = body_top(t.len());
    assert(title + (blocks_ops(bs, ls, top) + block_ops(b, lines, top + blocks_height(bs, ls)))
        =~= title + blocks_ops(bs, ls, top) + block_ops(b, lines, top + blocks_height(bs, ls)));
}

proof fn lemma_lines_ops_spelled(style: LineStyle, after_marker: bool, top: nat, lh: nat, lines: Seq<Seq<char>>)
    ensures
        lines_ops(style, after_marker, top, lh, lines) == Seq::new(
            lines.len(),
            |k: int| (OpView::Text { style, after_marker, baseline: (top + (k + 1) * lh) as nat, text: lines[k] }),
        ),
{
    assert(lines_ops(style, after_marker, top, lh, lines) =~= Seq::new(
        lines.len(),
        |k: int| (OpView::Text { style, after_marker, baseline: (top + (k + 1) * lh) as nat, text: lines[k] }),
    ));
}

/// A page without blocks paints its title's `n` lines in the title style, in
/// order, the `k`-th (from 0) at `18 + 22 * (k + 1)`, and is
/// `50 + 22 * n` tall: the padding above and below, the lines, and the space
/// under the title.
pub proof fn lemma_title_layout(t: Seq<Seq<char>>)
    ensures
        content_height(t, seq![], seq![]) == 50 + 22 * t.len(),
        page_ops(t, seq![], seq![]) == Seq::new(
            t.len(),
            |k: int|
                (OpView::Text { style: LineStyle::Title, after_marker: false, baseline: (18 + 22 * (k + 1)) as nat, text: t[k] }),
        ),
{
    lemma_lines_ops_spelled(LineStyle::Title, false, PAD_Y as nat, 22, t);
    let sp = Seq::new(
        t.len(),
        |k: int| (OpView::Text { style: LineStyle::Title, after_marker: false, baseline: (18 + 22 * (k + 1)) as nat, text: t[k] }),
    );
    assert(lines_ops(LineStyle::Title, false, PAD_Y as nat, 22, t) =~= sp);
    assert(sp + Seq::<OpView>::empty() =~= sp);
}

/// Appending a heading with text to a page: its `n` lines are painted in the
/// heading's style, in order, the `k`-th (from 0) `k + 1` line heights below
/// where the page's content ended, and the page grows by `n` line heights
/// and the heading's gap.
pub proof fn lemma_append_heading(
    t: Seq<Seq<char>>,
    bs: Seq<BlockView>,
    ls: Seq<Seq<Seq<char>>>,
    level: u8,
    text: Seq<char>,
    lines: Seq<Seq<char>>,
)
    requires
        bs.len() == ls.len(),
        text.len() > 0,
    ensures
        content_height(t, bs.push((BlockView::Heading { level, text })), ls.push(lines))
            == content_height(t, bs, ls) + lines.len() * heading_line_height(level) + heading_gap(level),
        page_ops(t, bs.push((BlockView::Heading { level, text })), ls.push(lines)) == page_ops(t, bs, ls)
            + Seq::new(
            lines.len(),
            |k: int|
                (OpView::Text {
                    style: LineStyle::Heading(level),
                    after_marker: false,
                    baseline: (content_height(t, bs, ls) - PAD_Y + (k + 1) * heading_line_height(level)) as nat,
                    text: lines[k],
                }),
        ),
{
    let b = BlockView::Heading { level, text };
    lemma_append_block(t, bs, ls, b, lines);
    let top = (content_height(t, bs, ls) - PAD_Y) as nat;
    lemma_lines_ops_spelled(LineStyle::Heading(level), false, top, heading_line_height(level), lines);
}

/// Appending a heading without text to a page changes nothing: it paints
/// nothing and takes no room.
pub proof fn lemma_append_empty_heading(
    t: Seq<Seq<char>>,
    bs: Seq<BlockView>,
    ls: Seq<Seq<Seq<char>>>,
    level: u8,
    lines: Seq<Seq<char>>,
)
    requires
        bs.len() == ls.len(),
    ensures
        content_height(t, bs.push((BlockView::Heading { level, text: seq![] })), ls.push(lines))
            == content_height(t, bs, ls),
        page_ops(t, bs.push((BlockView::Heading { level, text: seq![] })), ls.push(lines)) == page_ops(
            t,
            bs,
            ls,
        ),
{
    let b = BlockView::Heading { level, text: seq![] };
    lemma_append_block(t, bs, ls, b, lines);
    assert(page_ops(t, bs, ls) + Seq::<OpView>::empty() =~= page_ops(t, bs, ls));
}

/// Appending a paragraph to a page: its `n` lines are painted in the
/// paragraph style, in order, the `k`-th (from 0) `k + 1` times 22 below
/// where the page's content ended, and the page grows by `22 * n + 10`.
pub proof fn lemma_append_paragraph(
    t: Seq<Seq<char>>,
    bs: Seq<BlockView>,
    ls: Seq<Seq<Seq<char>>>,
    text: Seq<char>,
    lines: Seq<Seq<char>>,
)
    requires
        bs.len() == ls.len(),
    ensures
        content_height(t, bs.push((BlockView::Paragraph { text })), ls.push(lines))
            == content_height(t, bs, ls) + 22 * lines.len() + 10,
        page_ops(t, bs.push((BlockView::Paragraph { text })), ls.push(lines)) == page_ops(t, bs, ls)
            + Seq::new(
            lines.len(),
            |k: int|
                (OpView::Text {
                    style: LineStyle::Paragraph,
                    after_marker: false,
                    baseline: (content_height(t, bs, ls) - PAD_Y + 22 * (k + 1)) as nat,
                    text: lines[k],
                }),
        ),
{
    let b = BlockView::Paragraph { text };
    lemma_append_block(t, bs, ls, b, lines);
    let top = (content_height(t, bs, ls) - PAD_Y) as nat;
    lemma_lines_ops_spelled(LineStyle::Paragraph, false, top, 22, lines);
    assert(Seq::new(
        lines.len(),
        |k: int| (OpView::Text { style: LineStyle::Paragraph, after_marker: false, baseline: (top + (k + 1) * 22) as nat, text: lines[k] }),
    ) =~= Seq::new(
        lines.len(),
        |k: int| (OpView::Text { style: LineStyle::Paragraph, after_marker: false, baseline: (content_height(t, bs, ls) - PAD_Y + 22 * (k + 1)) as nat, text: lines[k] }),
    ));
}

/// Appending preformatted text to a page: its `n` lines are painted in the
/// preformatted (monospace) style, in order, the `k`-th (from 0) `k + 1`
/// times 20 below where the page's content ended, and the page grows by
/// `20 * n + 10`.
pub proof fn lemma_append_pre(
    t: Seq<Seq<char>>,
    bs: Seq<BlockView>,
    ls: Seq<Seq<Seq<char>>>,
    text: Seq<char>,
    lines: Seq<Seq<char>>,
)
    requires
        bs.len() == ls.len(),
    ensures
        content_height(t, bs.push((BlockView::Pre { text })), ls.push(lines)) == content_height(t, bs, ls)
            + 20 * lines.len() + 10,
        page_ops(t, bs.push((BlockView::Pre { text })), ls.push(lines)) == page_ops(t, bs, ls) + Seq::new(
            lines.len(),
            |k: int|
                (OpView::Text {
                    style: LineStyle::Pre,
                    after_marker: false,
                    baseline: (content_height(t, bs, ls) - PAD_Y + 20 * (k + 1)) as nat,
                    text: lines[k],
                }),
        ),
{
    let b = BlockView::Pre { text };
    lemma_append_block(t, bs, ls, b, lines);
    let top = (content_height(t, bs, ls) - PAD_Y) as nat;
    lemma_lines_ops_spelled(LineStyle::Pre, false, top, 20, lines);
    assert(Seq::new(
        lines.len(),
        |k: int| (OpView::Text { style: LineStyle::Pre, after_marker: false, baseline: (top + (k + 1) * 20) as nat, text: lines[k] }),
    ) =~= Seq::new(
        lines.len(),
        |k: int| (OpView::Text { style: LineStyle::Pre, after_marker: false, baseline: (content_height(t, bs, ls) - PAD_Y + 20 * (k + 1)) as nat, text: lines[k] }),
    ));
}

/// Appending a list item with at least one line to a page: its marker is
/// painted on the first line's baseline, 22 below where the page's content
/// ended, then its `n` lines in the list item style after the marker, the
/// `k`-th (from 0) `k + 1` times 22 below that point; the page grows by
/// `22 * n + 4`. A list item without lines paints nothing and adds 4.
pub proof fn lemma_append_list_item(
    t: Seq<Seq<char>>,
    bs: Seq<BlockView>,
    ls: Seq<Seq<Seq<char>>>,
    marker: Seq<char>,
    text: Seq<char>,
    lines: Seq<Seq<char>>,
)
    requires
        bs.len() == ls.len(),
    ensures
        content_height(t, bs.push((BlockView::ListItem { marker, text })), ls.push(lines))
            == content_height(t, bs, ls) + 22 * lines.len() + 4,
        lines.len() > 0 ==> page_ops(t, bs.push((BlockView::ListItem { marker, text })), ls.push(lines))
            == page_ops(t, bs, ls) + seq![
            (OpView::Marker { baseline: (content_height(t, bs, ls) - PAD_Y + 22) as nat, text: marker }),
        ] + Seq::new(
            lines.len(),
            |k: int|
                (OpView::Text {
                    style: LineStyle::ListItem,
                    after_marker: true,
                    baseline: (content_height(t, bs, ls) - PAD_Y + 22 * (k + 1)) as nat,
                    text: lines[k],
                }),
        ),
        lines.len() == 0 ==> page_ops(t, bs.push((BlockView::ListItem { marker, text })), ls.push(lines))
            == page_ops(t, bs, ls),
{
    let b = BlockView::ListItem { marker, text };
    lemma_append_block(t, bs, ls, b, lines);
    let top = (content_height(t, bs, ls) - PAD_Y) as nat;
    lemma_lines_ops_spelled(LineStyle::ListItem, true, top, 22, lines);
    let spelled = Seq::new(
        lines.len(),
        |k: int| (OpView::Text { style: LineStyle::ListItem, after_marker: true, baseline: (content_height(t, bs, ls) - PAD_Y + 22 * (k + 1)) as nat, text: lines[k] }),
    );
    assert(Seq::new(
        lines.len(),
        |k: int| (OpView::Text { style: LineStyle::ListItem, after_marker: true, baseline: (top + (k + 1) * 22) as nat, text: lines[k] }),
    ) =~= spelled);
    let m = seq![(OpView::Marker { baseline: (content_height(t, bs, ls) - PAD_Y + 22) as nat, text: marker })];
    assert(page_ops(t, bs, ls) + (m + spelled) =~= page_ops(t, bs, ls) + m + spelled);
    assert(page_ops(t, bs, ls) + Seq::<OpView>::empty() =~= page_ops(t, bs, ls));
}

/// Appending a rule to a page: it is painted 6 below where the page's content
/// ended, and the page grows by 20.
pub proof fn lemma_append_rule(
    t: Seq<Seq<char>>,
    bs: Seq<BlockView>,
    ls: Seq<Seq<Seq<char>>>,
    lines: Seq<Seq<char>>,
)
    requires
        bs.len() == ls.len(),
    ensures
        content_height(t, bs.push(BlockView::Rule), ls.push(lines)) == content_height(t, bs, ls) + 20,
        page_ops(t, bs.push(BlockView::Rule), ls.push(lines)) == page_ops(t, bs, ls).push(
            (OpView::Rule { y: (content_height(t, bs, ls) - PAD_Y + 6) as nat }),
        ),
{
    lemma_append_block(t, bs, ls, BlockView::Rule, lines);
    assert(page_ops(t, bs, ls) + seq![(OpView::Rule { y: (content_height(t, bs, ls) - PAD_Y + 6) as nat })]
        =~= page_ops(t, bs, ls).push((OpView::Rule { y: (content_height(t, bs, ls) - PAD_Y + 6) as nat })));
}

// ---------------------------------------------------------------------------
// Executable functions
// ---------------------------------------------------------------------------

/// The font, line height and following space of a heading of `level`.
pub fn heading_style(level: u8) -> (r: (&'static str, u64, u64))
    ensures
        r.0@ == heading_font(level),
        r.1 == heading_line_height(level),
        r.2 == heading_gap(level),
{
    match level {
        1 => ("700 28px ui-sans-serif, system-ui, sans-serif", 32, 14),
        2 => ("700 22px ui-sans-serif, system-ui, sans-serif", 26, 12),
        3 => ("650 19px ui-sans-serif, system-ui, sans-serif", 24, 10),
        4 => ("650 17px ui-sans-serif, system-ui, sans-serif", 22, 8),
        _ => ("600 16px ui-sans-serif, system-ui, sans-serif", 22, 8),
    }
}

/// The font of lines of `style`.
pub fn font_for(style: LineStyle) -> (r: &'static str)
    ensures
        r@ == style_font(style),
{
    match style {
        LineStyle::Title => "600 17px ui-sans-serif, system-ui, sans-serif",
        LineStyle::Heading(level) => heading_style(level).0,
        LineStyle::Paragraph => "16px ui-sans-serif, system-ui, sans-serif",
        LineStyle::Pre => "14px ui-monospace, SFMono-Regular, Menlo, monospace",
        LineStyle::ListItem => "16px ui-sans-serif, system-ui, sans-serif",
    }
}

/// `n * lh + gap`, unless that exceeds `u64::MAX`.
fn lines_height_checked(n: usize, lh: u64, gap: u64) -> (r: Option<u64>)
    ensures
        r == if lines_height(n as nat, lh as nat) + gap <= u64::MAX {
            Some((lines_height(n as nat, lh as nat) + gap) as u64)
        } else {
            None::<u64>
        },
{
    match (n as u64).checked_mul(lh) {
        Some(m) => m.checked_add(gap),
        None => {
            proof {
                assert(lines_height(n as nat, lh as nat) > u64::MAX);
            }
            None
        },
    }
}

/// The height of block `b` with `n` wrapped lines, unless that exceeds `u64::MAX`.
fn block_height_checked(b: &FlowBlock, n: usize) -> (r: Option<u64>)
    ensures
        r == if block_height(b@, n as nat) <= u64::MAX {
            Some(block_height(b@, n as nat) as u64)
        } else {
            None::<u64>
        },
{
    match b {
        FlowBlock::Heading { level, text } => {
            if text.as_str().is_empty() {
                Some(0)
            } else {
                let (_, lh, gap) = heading_style(*level);
                lines_height_checked(n, lh, gap)
            }
        },
        FlowBlock::Paragraph { .. } => lines_height_checked(n, 22, 10),
        FlowBlock::Pre { .. } => lines_height_checked(n, 20, 10),
        FlowBlock::ListItem { .. } => lines_height_checked(n, 22, 4),
        FlowBlock::Rule => Some(20),
    }
}

/// The height of the page whose title wraps to `title_lines` and whose
/// blocks wrap to `block_lines`, unless that exceeds `u64::MAX`.
pub fn measure_content_height(
    title_lines: &Vec<String>,
    blocks: &Vec<FlowBlock>,
    block_lines: &Vec<Vec<String>>,
) -> (r: Option<u64>)
    requires
        blocks.len() == block_lines.len(),
    ensures
        r == if content_height(
            strings_view(title_lines@),
            blocks_view(blocks@),
            lines_view(block_lines@),
        ) <= u64::MAX {
            Some(
                content_height(
                    strings_view(title_lines@),
                    blocks_view(blocks@),
                    lines_view(block_lines@),
                ) as u64,
            )
        } else {
            None::<u64>
        },
{
    let ghost bs = blocks_view(blocks@);
    let ghost ls = lines_view(block_lines@);
    let ghost total = content_height(strings_view(title_lines@), bs, ls);
    proof {
        lemma_lines_view_len(block_lines@);
    }
    let top: u64 = match lines_height_checked(title_lines.len(), 22, PAD_Y + TITLE_GAP) {
        Some(t) => t,
        None => {
            return None;
        },
    };
    let mut acc: u64 = top;
    proof {
        assert(bs.take(0) =~= Seq::<BlockView>::empty());
        assert(ls.take(0) =~= Seq::<Seq<Seq<char>>>::empty());
    }
    for i in 0..blocks.len()
        invariant
            blocks.len() == block_lines.len(),
            bs == blocks_view(blocks@),
            ls == lines_view(block_lines@),
            ls.len() == bs.len(),
            total == content_height(strings_view(title_lines@), bs, ls),
            acc == body_top(title_lines.len() as nat) + blocks_height(bs.take(i as int), ls.take(i as int)),
    {
        proof {
            lemma_blocks_height_step(bs, ls, i as int);
            lemma_blocks_height_prefix(bs, ls, i as int);
            lemma_lines_view_len(block_lines@);
            assert(bs[i as int] == blocks@[i as int]@);
        }
        let bh: u64 = match block_height_checked(&blocks[i], block_lines[i].len()) {
            Some(h) => h,
            None => {
                return None;
            },
        };
        acc = match acc.checked_add(bh) {
            Some(a) => a,
            None => {
                return None;
            },
        };
    }
    proof {
        assert(bs.take(blocks.len() as int) == bs);
        assert(ls.take(blocks.len() as int) == ls);
    }
    acc.checked_add(PAD_Y)
}

/// Appends the text operations for `lines` of height `lh`, the first line's
/// top at `top`.
fn push_lines_ops(
    ops: &mut Vec<DrawOp>,
    style: LineStyle,
    after_marker: bool,
    top: u64,
    lh: u64,
    lines: &Vec<String>,
)
    requires
        top + lines_height(lines.len() as nat, lh as nat) <= u64::MAX,
    ensures
        ops_view(final(ops)@) == ops_view(old(ops)@) + lines_ops(
            style,
            after_marker,
            top as nat,
            lh as nat,
            strings_view(lines@),
        ),
{
    let ghost before = ops_view(ops@);
    let ghost all = lines_ops(style, after_marker, top as nat, lh as nat, strings_view(lines@));
    let mut y: u64 = top;
    proof {
        lemma_mul_mono(0, 0, lh as nat);
        assert(lines_height(0, lh as nat) == 0);
        assert(all.take(0) =~= Seq::<OpView>::empty());
        assert(before + all.take(0) =~= before);
    }
    for j in 0..lines.len()
        invariant
            top + lines_height(lines.len() as nat, lh as nat) <= u64::MAX,
            all == lines_ops(style, after_marker, top as nat, lh as nat, strings_view(lines@)),
            y == top + lines_height(j as nat, lh as nat),
            ops_view(ops@) == before + all.take(j as int),
    {
        proof {
            lemma_mul_succ(j as nat, lh as nat);
            lemma_mul_mono((j + 1) as nat, lines.len() as nat, lh as nat);
        }
        y = y + lh;
        let op = DrawOp::Text { style, after_marker, baseline: y, text: lines[j].clone() };
        proof {
            assert(ops_view(ops@.push(op)) =~= ops_view(ops@).push(op@));
            assert(all[j as int] == op@);
            assert(all.take(j + 1) =~= all.take(j as int).push(op@));
        }
        ops.push(op);
    }
    proof {
        assert(all.take(lines.len() as int) == all);
    }
}

/// Appends the operations of block `b` starting at `top`, with its wrapped
/// `lines`.
fn push_block_ops(ops: &mut Vec<DrawOp>, b: &FlowBlock, lines: &Vec<String>, top: u64)
    requires
        top + block_height(b@, lines.len() as nat) <= u64::MAX,
    ensures
        ops_view(final(ops)@) == ops_view(old(ops)@) + block_ops(b@, strings_view(lines@), top as nat),
{
    let ghost before = ops_view(ops@);
    match b {
        FlowBlock::Heading { level, text } => {
            if !text.as_str().is_empty() {
                let (_, lh, _) = heading_style(*level);
                push_lines_ops(ops, LineStyle::Heading(*level), false, top, lh, lines);
            } else {
                assert(ops_view(ops@) =~= before + block_ops(b@, strings_view(lines@), top as nat));
            }
        },
        FlowBlock::Paragraph { .. } => {
            push_lines_ops(ops, LineStyle::Paragraph, false, top, 22, lines);
        },
        FlowBlock::Pre { .. } => {
            push_lines_ops(ops, LineStyle::Pre, false, top, 20, lines);
        },
        FlowBlock::ListItem { marker, .. } => {
            if lines.len() > 0 {
                proof {
                    lemma_mul_mono(1, lines.len() as nat, 22);
                }
                let op = DrawOp::Marker { baseline: top + 22, text: marker.clone() };
                proof {
                    assert(ops_view(ops@.push(op)) =~= ops_view(ops@).push(op@));
                }
                ops.push(op);
                push_lines_ops(ops, LineStyle::ListItem, true, top, 22, lines);
                proof {
                    assert(ops_view(ops@) =~= before + block_ops(
                        b@,
                        strings_view(lines@),
                        top as nat,
                    ));
                }
            } else {
                assert(ops_view(ops@) =~= before + block_ops(b@, strings_view(lines@), top as nat));
            }
        },
        FlowBlock::Rule => {
            let op = DrawOp::Rule { y: top + 6 };
            proof {
                assert(ops_view(ops@.push(op)) =~= ops_view(ops@).push(op@));
            }
            ops.push(op);
            assert(ops_view(ops@) =~= before + block_ops(b@, strings_view(lines@), top as nat));
        },
    }
}

/// Lays out the page whose title wraps to `title_lines` and whose blocks
/// wrap to `block_lines`: the title at the top, then each block below the
/// previous one. `None` when the page would be taller than `u64::MAX`.
pub fn layout_content(
    title_lines: &Vec<String>,
    blocks: &Vec<FlowBlock>,
    block_lines: &Vec<Vec<String>>,
) -> (r: Option<PagePlan>)
    requires
        blocks.len() == block_lines.len(),
    ensures
        r is Some <==> content_height(
            strings_view(title_lines@),
            blocks_view(blocks@),
            lines_view(block_lines@),
        ) <= u64::MAX,
        r matches Some(p) ==> {
            &&& p.height == content_height(
                strings_view(title_lines@),
                blocks_view(blocks@),
                lines_view(block_lines@),
            )
            &&& ops_view(p.ops@) == page_ops(
                strings_view(title_lines@),
                blocks_view(blocks@),
                lines_view(block_lines@),
            )
        },
{
    let ghost tv = strings_view(title_lines@);
    let ghost bs = blocks_view(blocks@);
    let ghost ls = lines_view(block_lines@);
    let height: u64 = match measure_content_height(title_lines, blocks, block_lines) {
        Some(h) => h,
        None => {
            return None;
        },
    };
    proof {
        lemma_lines_view_len(block_lines@);
    }
    let mut ops: Vec<DrawOp> = Vec::new();
    proof {
        assert(ops_view(ops@) =~= Seq::<OpView>::empty());
    }
    push_lines_ops(&mut ops, LineStyle::Title, false, PAD_Y, 22, title_lines);
    let n: u64 = title_lines.len() as u64;
    let mut y: u64 = PAD_Y + n * 22 + TITLE_GAP;
    let ghost top0 = body_top(tv.len());
    let ghost title_ops = lines_ops(LineStyle::Title, false, PAD_Y as nat, 22, tv);
    proof {
        assert(bs.take(0) =~= Seq::<BlockView>::empty());
        assert(ls.take(0) =~= Seq::<Seq<Seq<char>>>::empty());
        assert(ops_view(ops@) =~= title_ops + blocks_ops(bs.take(0), ls.take(0), top0));
    }
    for i in 0..blocks.len()
        invariant
            blocks.len() == block_lines.len(),
            bs == blocks_view(blocks@),
            ls == lines_view(block_lines@),
            ls.len() == bs.len(),
            tv == strings_view(title_lines@),
            top0 == body_top(tv.len()),
            height == content_height(tv, bs, ls),
            title_ops == lines_ops(LineStyle::Title, false, PAD_Y as nat, 22, tv),
            y == top0 + blocks_height(bs.take(i as int), ls.take(i as int)),
            ops_view(ops@) == title_ops + blocks_ops(bs.take(i as int), ls.take(i as int), top0),
    {
        proof {
            lemma_blocks_height_step(bs, ls, i as int);
            lemma_blocks_ops_step(bs, ls, i as int, top0);
            lemma_blocks_height_prefix(bs, ls, i as int);
            lemma_lines_view_len(block_lines@);
            assert(bs[i as int] == blocks@[i as int]@);
        }
        push_block_ops(&mut ops, &blocks[i], &block_lines[i], y);
        let bh: u64 = match block_height_checked(&blocks[i], block_lines[i].len()) {
            Some(h) => h,
            None => 0,
        };
        y = y + bh;
        proof {
            assert(ops_view(ops@) =~= title_ops + blocks_ops(bs.take(i + 1), ls.take(i + 1), top0));
        }
    }
    proof {
        assert(bs.take(blocks.len() as int) == bs);
        assert(ls.take(blocks.len() as int) == ls);
    }
    Some(PagePlan { ops, height })
}

} // verus!
