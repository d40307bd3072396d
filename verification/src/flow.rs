//! Block-level structure extracted from the document tree: headings,
//! paragraphs, preformatted text, list items and rules.
use crate::dom::{name_is, DomNode};
use crate::text::{
    decimal, decimal_string, digit_char, normalize_ws, normalize_ws_multiline, normalized,
    normalized_multiline, push_char, trim, trim_str,
};
use vstd::prelude::*;

verus! {

/// One block of readable content.
#[derive(Debug)]
pub enum FlowBlock {
    Heading { level: u8, text: String },
    Paragraph { text: String },
    Pre { text: String },
    ListItem { marker: String, text: String },
    Rule,
}

/// The mathematical value of a [`FlowBlock`].
pub enum BlockView {
    Heading { level: u8, text: Seq<char> },
    Paragraph { text: Seq<char> },
    Pre { text: Seq<char> },
    ListItem { marker: Seq<char>, text: Seq<char> },
    Rule,
}

impl View for FlowBlock {
    type V = BlockView;

    open spec fn view(&self) -> BlockView {
        match self {
            FlowBlock::Heading { level, text } => BlockView::Heading { level: *level, text: text@ },
            FlowBlock::Paragraph { text } => BlockView::Paragraph { text: text@ },
            FlowBlock::Pre { text } => BlockView::Pre { text: text@ },
            FlowBlock::ListItem { marker, text } => BlockView::ListItem {
                marker: marker@,
                text: text@,
            },
            FlowBlock::Rule => BlockView::Rule,
        }
    }
}

/// The views of a sequence of blocks.
pub open spec fn blocks_view(v: Seq<FlowBlock>) -> Seq<BlockView> {
    v.map_values(|b: FlowBlock| b@)
}

/// Elements whose content is never shown.
pub open spec fn is_skipped(name: Seq<char>) -> bool {
    ||| name == "script"@
    ||| name == "style"@
    ||| name == "noscript"@
    ||| name == "svg"@
    ||| name == "iframe"@
}

/// Elements that make a block of their own.
pub open spec fn is_block_name(name: Seq<char>) -> bool {
    ||| name == "p"@
    ||| name == "div"@
    ||| name == "section"@
    ||| name == "article"@
    ||| name == "main"@
    ||| name == "nav"@
    ||| name == "header"@
    ||| name == "footer"@
    ||| name == "aside"@
    ||| name == "blockquote"@
    ||| name == "figure"@
    ||| name == "figcaption"@
    ||| name == "address"@
    ||| name == "body"@
}

/// The level of the heading element `name`, if it is one.
pub open spec fn heading_of(name: Seq<char>) -> Option<u8> {
    if name == "h1"@ {
        Some(1)
    } else if name == "h2"@ {
        Some(2)
    } else if name == "h3"@ {
        Some(3)
    } else if name == "h4"@ {
        Some(4)
    } else if name == "h5"@ {
        Some(5)
    } else if name == "h6"@ {
        Some(6)
    } else {
        None
    }
}

/// A child that gives its parent block a structure of its own.
pub open spec fn is_structural(c: DomNode) -> bool {
    match c {
        DomNode::Element { name, .. } => {
            ||| is_block_name(name@)
            ||| name@ == "ul"@
            ||| name@ == "ol"@
            ||| name@ == "li"@
            ||| name@ == "hr"@
            ||| heading_of(name@) is Some
            ||| name@ == "pre"@
            ||| name@ == "br"@
        },
        _ => false,
    }
}

/// Whether one of `children` is structural.
pub open spec fn has_structural_child(children: Seq<DomNode>) -> bool {
    exists|i: int| 0 <= i < children.len() && is_structural(#[trigger] children[i])
}

/// The visible inline text of a node: text nodes verbatim, `<br>` as a
/// newline, hidden elements as nothing.
pub open spec fn inline_text(n: DomNode) -> Seq<char>
    decreases n,
{
    match n {
        DomNode::Text { contents } => contents@,
        DomNode::Element { name, children, .. } => if is_skipped(name@) {
            seq![]
        } else if name@ == "br"@ {
            seq!['\n']
        } else {
            inline_text_seq(children@)
        },
        _ => seq![],
    }
}

/// The inline texts of `s`, concatenated.
pub open spec fn inline_text_seq(s: Seq<DomNode>) -> Seq<char>
    decreases s,
{
    if s.len() == 0 {
        seq![]
    } else {
        inline_text_seq(s.drop_last()) + inline_text(s.last())
    }
}

/// The text of a preformatted node: text nodes verbatim, a `<br>` as a newline
/// before its own content, hidden elements as nothing.
pub open spec fn pre_text(n: DomNode) -> Seq<char>
    decreases n,
{
    match n {
        DomNode::Text { contents } => contents@,
        DomNode::Element { name, children, .. } => if is_skipped(name@) {
            seq![]
        } else if name@ == "br"@ {
            seq!['\n'] + pre_text_seq(children@)
        } else {
            pre_text_seq(children@)
        },
        _ => seq![],
    }
}

/// The preformatted texts of `s`, concatenated.
pub open spec fn pre_text_seq(s: Seq<DomNode>) -> Seq<char>
    decreases s,
{
    if s.len() == 0 {
        seq![]
    } else {
        pre_text_seq(s.drop_last()) + pre_text(s.last())
    }
}

/// The list item for `li` under `marker`: its inline text with whitespace
/// collapsed, left out when that is empty.
pub open spec fn li_item(marker: Seq<char>, li: DomNode) -> Seq<BlockView> {
    let text = normalized(inline_text(li));
    if text.len() > 0 {
        seq![BlockView::ListItem { marker, text }]
    } else {
        seq![]
    }
}

/// The marker of an unordered list item.
pub open spec fn bullet() -> Seq<char> {
    "• "@
}

/// The number shown for the list item that has `k` list items before it;
/// it stops growing at `u32::MAX`.
pub open spec fn ol_number(k: nat) -> nat {
    if k + 1 <= u32::MAX {
        k + 1
    } else {
        u32::MAX as nat
    }
}

/// The marker of the ordered list item numbered `n`.
pub open spec fn ol_marker(n: nat) -> Seq<char> {
    decimal(n) + ". "@
}

/// How many of `s` are `<li>` elements.
pub open spec fn li_count(s: Seq<DomNode>) -> nat
    decreases s.len(),
{
    if s.len() == 0 {
        0
    } else {
        li_count(s.drop_last()) + if s.last().is_element_named("li"@) {
            1nat
        } else {
            0nat
        }
    }
}

/// The blocks of a node.
pub open spec fn flow(n: DomNode) -> Seq<BlockView>
    decreases n,
{
    match n {
        DomNode::Text { contents } => {
            let t = trim(contents@);
            if t.len() > 0 {
                seq![BlockView::Paragraph { text: normalized(t) }]
            } else {
                seq![]
            }
        },
        DomNode::Element { name, children, .. } => {
            if is_skipped(name@) {
                seq![]
            } else if name@ == "br"@ {
                seq![BlockView::Paragraph { text: seq!['\n'] }]
            } else if name@ == "hr"@ {
                seq![BlockView::Rule]
            } else if name@ == "ul"@ {
                ul_flow(children@)
            } else if name@ == "ol"@ {
                ol_flow(children@)
            } else if name@ == "li"@ {
                li_item(bullet(), n)
            } else if heading_of(name@) is Some {
                let text = inline_text(n);
                if text.len() > 0 {
                    seq![BlockView::Heading { level: heading_of(name@)->0, text }]
                } else {
                    seq![]
                }
            } else if name@ == "pre"@ {
                let text = pre_text(n);
                if trim(text).len() > 0 || text.contains('\n') {
                    seq![BlockView::Pre { text }]
                } else {
                    seq![]
                }
            } else if is_block_name(name@) {
                if has_structural_child(children@) {
                    flow_seq(children@)
                } else {
                    let text = normalized_multiline(inline_text(n));
                    if text.len() > 0 {
                        seq![BlockView::Paragraph { text }]
                    } else {
                        seq![]
                    }
                }
            } else {
                flow_seq(children@)
            }
        },
        _ => seq![],
    }
}

/// The blocks of each of `s`, concatenated.
pub open spec fn flow_seq(s: Seq<DomNode>) -> Seq<BlockView>
    decreases s,
{
    if s.len() == 0 {
        seq![]
    } else {
        flow_seq(s.drop_last()) + flow(s.last())
    }
}

/// The blocks of the children of `<ul>`: `<li>` children are bulleted items.
pub open spec fn ul_flow(s: Seq<DomNode>) -> Seq<BlockView>
    decreases s,
{
    if s.len() == 0 {
        seq![]
    } else {
        ul_flow(s.drop_last()) + if s.last().is_element_named("li"@) {
            li_item(bullet(), s.last())
        } else {
            flow(s.last())
        }
    }
}

/// The blocks of the children of `<ol>`: `<li>` children are numbered items,
/// counting from 1.
pub open spec fn ol_flow(s: Seq<DomNode>) -> Seq<BlockView>
    decreases s,
{
    if s.len() == 0 {
        seq![]
    } else {
        ol_flow(s.drop_last()) + if s.last().is_element_named("li"@) {
            li_item(ol_marker(ol_number(li_count(s.drop_last()))), s.last())
        } else {
            flow(s.last())
        }
    }
}


// ---------------------------------------------------------------------------
// Laws
// ---------------------------------------------------------------------------

/// A list marker: the bullet, or a number from 1 followed by `. `.
pub open spec fn is_list_marker(m: Seq<char>) -> bool {
    m == bullet() || exists|k: nat| 1 <= k <= u32::MAX && m == #[trigger] ol_marker(k)
}

/// A block other than a rule carries text; a heading's level is 1 to 6; a
/// list item has a list marker and its text has its whitespace collapsed.
pub open spec fn well_formed_block(b: BlockView) -> bool {
    match b {
        BlockView::Heading { level, text } => 1 <= level <= 6 && text.len() > 0,
        BlockView::Paragraph { text } => text.len() > 0,
        BlockView::Pre { text } => text.len() > 0,
        BlockView::ListItem { marker, text } => {
            &&& text.len() > 0
            &&& normalized(text) == text
            &&& is_list_marker(marker)
        },
        BlockView::Rule => true,
    }
}

proof fn lemma_li_item_well_formed(marker: Seq<char>, li: DomNode)
    requires
        is_list_marker(marker),
    ensures
        all_well_formed(li_item(marker, li)),
{
    crate::text::lemma_normalize_idempotent(inline_text(li));
}

proof fn lemma_ol_marker_is_marker(n: nat)
    requires
        1 <= n <= u32::MAX,
    ensures
        is_list_marker(ol_marker(n)),
{
    assert(1 <= n <= u32::MAX && ol_marker(n) == ol_marker(n));
}

/// Every block of `s` is well formed.
pub open spec fn all_well_formed(s: Seq<BlockView>) -> bool {
    forall|i: int| 0 <= i < s.len() ==> well_formed_block(#[trigger] s[i])
}

proof fn lemma_all_well_formed_concat(a: Seq<BlockView>, b: Seq<BlockView>)
    requires
        all_well_formed(a),
        all_well_formed(b),
    ensures
        all_well_formed(a + b),
{
    assert forall|i: int| 0 <= i < (a + b).len() implies well_formed_block(#[trigger] (a + b)[i]) by {
        if i < a.len() {
            assert((a + b)[i] == a[i]);
        } else {
            assert((a + b)[i] == b[i - a.len()]);
        }
    }
}

/// Every block extracted from a document is well formed: headings,
/// paragraphs, preformatted text and list items all carry text, heading
/// levels are 1 to 6, list markers are the bullet or a number from 1
/// followed by `. `, and list item text has its whitespace collapsed.
pub proof fn lemma_flow_well_formed(n: DomNode)
    ensures
        all_well_formed(flow(n)),
    decreases n,
{
    match n {
        DomNode::Text { contents } => {
            let t = trim(contents@);
            crate::text::lemma_trim_last(contents@);
            if t.len() > 0 {
                crate::text::lemma_normalized_nonempty(t);
            }
        },
        DomNode::Element { name, children, .. } => {
            if is_skipped(name@) {
            } else if name@ == "br"@ {
            } else if name@ == "hr"@ {
            } else if name@ == "ul"@ {
                lemma_ul_flow_well_formed(children@);
            } else if name@ == "ol"@ {
                lemma_ol_flow_well_formed(children@);
            } else if name@ == "li"@ {
                lemma_li_item_well_formed(bullet(), n);
            } else if heading_of(name@) is Some {
            } else if name@ == "pre"@ {
                let text = pre_text(n);
                crate::text::lemma_trim_len(text);
            } else if is_block_name(name@) {
                if has_structural_child(children@) {
                    lemma_flow_seq_well_formed(children@);
                }
            } else {
                lemma_flow_seq_well_formed(children@);
            }
        },
        _ => {},
    }
}

proof fn lemma_flow_seq_well_formed(s: Seq<DomNode>)
    ensures
        all_well_formed(flow_seq(s)),
    decreases s,
{
    if s.len() > 0 {
        lemma_flow_seq_well_formed(s.drop_last());
        lemma_flow_well_formed(s.last());
        lemma_all_well_formed_concat(flow_seq(s.drop_last()), flow(s.last()));
    }
}

proof fn lemma_ul_flow_well_formed(s: Seq<DomNode>)
    ensures
        all_well_formed(ul_flow(s)),
    decreases s,
{
    if s.len() > 0 {
        lemma_ul_flow_well_formed(s.drop_last());
        if !s.last().is_element_named("li"@) {
            lemma_flow_well_formed(s.last());
        } else {
            lemma_li_item_well_formed(bullet(), s.last());
        }
        lemma_all_well_formed_concat(
            ul_flow(s.drop_last()),
            if s.last().is_element_named("li"@) {
                li_item(bullet(), s.last())
            } else {
                flow(s.last())
            },
        );
    }
}

proof fn lemma_ol_flow_well_formed(s: Seq<DomNode>)
    ensures
        all_well_formed(ol_flow(s)),
    decreases s,
{
    if s.len() > 0 {
        lemma_ol_flow_well_formed(s.drop_last());
        if !s.last().is_element_named("li"@) {
            lemma_flow_well_formed(s.last());
        } else {
            lemma_ol_marker_is_marker(ol_number(li_count(s.drop_last())));
            lemma_li_item_well_formed(ol_marker(ol_number(li_count(s.drop_last()))), s.last());
        }
        lemma_all_well_formed_concat(
            ol_flow(s.drop_last()),
            if s.last().is_element_named("li"@) {
                li_item(ol_marker(ol_number(li_count(s.drop_last()))), s.last())
            } else {
                flow(s.last())
            },
        );
    }
}

proof fn lemma_block_name_is_plain(name: Seq<char>)
    requires
        is_block_name(name),
    ensures
        !is_skipped(name),
        name != "br"@,
        name != "hr"@,
        name != "ul"@,
        name != "ol"@,
        name != "li"@,
        heading_of(name) is None,
        name != "pre"@,
{
    reveal_strlit("p");
    reveal_strlit("div");
    reveal_strlit("section");
    reveal_strlit("article");
    reveal_strlit("main");
    reveal_strlit("nav");
    reveal_strlit("header");
    reveal_strlit("footer");
    reveal_strlit("aside");
    reveal_strlit("blockquote");
    reveal_strlit("figure");
    reveal_strlit("figcaption");
    reveal_strlit("address");
    reveal_strlit("body");
    reveal_strlit("script");
    reveal_strlit("style");
    reveal_strlit("noscript");
    reveal_strlit("svg");
    reveal_strlit("iframe");
    reveal_strlit("br");
    reveal_strlit("hr");
    reveal_strlit("ul");
    reveal_strlit("ol");
    reveal_strlit("li");
    reveal_strlit("h1");
    reveal_strlit("h2");
    reveal_strlit("h3");
    reveal_strlit("h4");
    reveal_strlit("h5");
    reveal_strlit("h6");
    reveal_strlit("pre");
    if name.len() == 3 || name.len() == 5 || name.len() == 6 {
        assert(name[0] != 's' || name[1] != 'c');
        assert(name[0] != 'i');
        assert(name[0] != 'p' && name[0] != 's' || name == "aside"@);
    }
}

proof fn lemma_flow_seq_concat(a: Seq<DomNode>, b: Seq<DomNode>)
    ensures
        flow_seq(a + b) == flow_seq(a) + flow_seq(b),
    decreases b.len(),
{
    if b.len() == 0 {
        assert(a + b =~= a);
        assert(flow_seq(a) + Seq::<BlockView>::empty() =~= flow_seq(a));
    } else {
        lemma_flow_seq_concat(a, b.drop_last());
        assert((a + b).drop_last() =~= a + b.drop_last());
        assert((a + b).last() == b.last());
        assert(flow_seq(a) + flow_seq(b.drop_last()) + flow(b.last()) =~= flow_seq(a) + (flow_seq(
            b.drop_last(),
        ) + flow(b.last())));
    }
}

/// A block element (`p`, `div`, `section`, ...) that holds a list keeps the
/// list's own blocks: its blocks are those of the children before the list,
/// then the list's, then those of the children after it. A list is never
/// folded into a paragraph of the block around it.
pub proof fn lemma_block_keeps_lists(n: DomNode, i: int)
    requires
        n matches DomNode::Element { name, children, .. } && is_block_name(name@) && 0 <= i
            < children.len() && (children[i].is_element_named("ul"@) || children[i].is_element_named(
            "ol"@,
        )),
    ensures
        flow(n) == flow_seq(n.kids().take(i)) + flow(n.kids()[i]) + flow_seq(n.kids().skip(i + 1)),
{
    let c = n.kids();
    if let DomNode::Element { name, children, .. } = n {
        lemma_block_name_is_plain(name@);
        assert(is_structural(children@[i]));
        assert(has_structural_child(children@));
        assert(flow(n) == flow_seq(c));
        lemma_flow_seq_concat(c.take(i), seq![c[i]]);
        lemma_flow_seq_concat(c.take(i) + seq![c[i]], c.skip(i + 1));
        assert(c.take(i) + seq![c[i]] + c.skip(i + 1) =~= c);
        assert(seq![c[i]].drop_last() =~= Seq::<DomNode>::empty());
        assert(flow_seq(seq![c[i]].drop_last()) == Seq::<BlockView>::empty());
        assert(Seq::<BlockView>::empty() + flow(c[i]) =~= flow(c[i]));
        assert(flow_seq(seq![c[i]]) == flow(c[i]));
    }
}

/// The blocks of a `<ul>` whose children are `<li>` elements and blank text:
/// one bulleted item per `<li>` whose text is not blank, holding that text
/// with its whitespace collapsed, in document order.
pub proof fn lemma_bulleted_list(ul: DomNode)
    requires
        ul.is_element_named("ul"@),
        forall|j: int|
            0 <= j < ul.kids().len() ==> (#[trigger] ul.kids()[j]).is_element_named("li"@) || (
            ul.kids()[j] matches DomNode::Text { contents } && trim(contents@).len() == 0),
    ensures
        flow(ul) == ul.kids().filter_map(
            |x: DomNode|
                if normalized(inline_text(x)).len() > 0 {
                    Some(BlockView::ListItem { marker: "• "@, text: normalized(inline_text(x)) })
                } else {
                    None
                },
        ),
{
    reveal_strlit("ul");
    reveal_strlit("br");
    reveal_strlit("hr");
    reveal_strlit("script");
    reveal_strlit("style");
    reveal_strlit("noscript");
    reveal_strlit("svg");
    reveal_strlit("iframe");
    if let DomNode::Element { name, .. } = ul {
        assert(name@[0] == 'u' && name@.len() == 2);
        assert(!is_skipped(name@));
        assert(name@ != "br"@ && name@ != "hr"@);
    }
    assert(flow(ul) == ul_flow(ul.kids()));
    lemma_ul_flow_items(ul.kids());
}

proof fn lemma_ul_flow_items(s: Seq<DomNode>)
    requires
        forall|j: int|
            0 <= j < s.len() ==> (#[trigger] s[j]).is_element_named("li"@) || (s[j] matches DomNode::Text {
                contents,
            } && trim(contents@).len() == 0),
    ensures
        ul_flow(s) == s.filter_map(
            |x: DomNode|
                if normalized(inline_text(x)).len() > 0 {
                    Some(BlockView::ListItem { marker: "• "@, text: normalized(inline_text(x)) })
                } else {
                    None
                },
        ),
    decreases s.len(),
{
    if s.len() > 0 {
        let p = s.drop_last();
        assert forall|j: int| 0 <= j < p.len() implies (#[trigger] p[j]).is_element_named("li"@) || (
        p[j] matches DomNode::Text { contents } && trim(contents@).len() == 0) by {
            assert(p[j] == s[j]);
        }
        lemma_ul_flow_items(p);
        let x = s.last();
        assert(x == s[s.len() - 1]);
        reveal_strlit("• ");
        if !x.is_element_named("li"@) {
            if let DomNode::Text { contents } = x {
                assert(trim(contents@).len() == 0);
                crate::text::lemma_blank_has_no_words(contents@);
                assert(flow(x) == Seq::<BlockView>::empty());
                assert(ul_flow(p) + Seq::<BlockView>::empty() =~= ul_flow(p));
            }
        } else {
            assert(bullet() == "• "@);
            if normalized(inline_text(x)).len() == 0 {
                assert(ul_flow(p) + Seq::<BlockView>::empty() =~= ul_flow(p));
            }
        }
    }
}

/// The blocks of an `<ol>` whose children are `<li>` elements with text: one
/// item per `<li>`, in document order, the `j`-th (from 0) numbered `j + 1`
/// and holding that element's text with its whitespace collapsed.
pub proof fn lemma_numbered_list(ol: DomNode)
    requires
        ol.is_element_named("ol"@),
        ol.kids().len() <= u32::MAX,
        forall|j: int|
            0 <= j < ol.kids().len() ==> (#[trigger] ol.kids()[j]).is_element_named("li"@) && normalized(
                inline_text(ol.kids()[j]),
            ).len() > 0,
    ensures
        flow(ol) == Seq::new(
            ol.kids().len(),
            |j: int|
                (BlockView::ListItem {
                    marker: decimal((j + 1) as nat) + ". "@,
                    text: normalized(inline_text(ol.kids()[j])),
                }),
        ),
{
    reveal_strlit("ol");
    reveal_strlit("ul");
    reveal_strlit("br");
    reveal_strlit("hr");
    reveal_strlit("script");
    reveal_strlit("style");
    reveal_strlit("noscript");
    reveal_strlit("svg");
    reveal_strlit("iframe");
    if let DomNode::Element { name, .. } = ol {
        assert(name@[0] == 'o' && name@.len() == 2);
        assert(!is_skipped(name@));
        assert(name@ != "br"@ && name@ != "hr"@ && name@ != "ul"@);
    }
    assert(flow(ol) == ol_flow(ol.kids()));
    lemma_ol_flow_items(ol.kids());
}

proof fn lemma_ol_flow_items(s: Seq<DomNode>)
    requires
        s.len() <= u32::MAX,
        forall|j: int|
            0 <= j < s.len() ==> (#[trigger] s[j]).is_element_named("li"@) && normalized(inline_text(s[j])).len()
                > 0,
    ensures
        li_count(s) == s.len(),
        ol_flow(s) == Seq::new(
            s.len(),
            |j: int|
                (BlockView::ListItem {
                    marker: decimal((j + 1) as nat) + ". "@,
                    text: normalized(inline_text(s[j])),
                }),
        ),
    decreases s.len(),
{
    if s.len() > 0 {
        let p = s.drop_last();
        assert forall|j: int| 0 <= j < p.len() implies (#[trigger] p[j]).is_element_named("li"@)
            && normalized(inline_text(p[j])).len() > 0 by {
            assert(p[j] == s[j]);
        }
        lemma_ol_flow_items(p);
        let x = s.last();
        assert(x == s[s.len() - 1]);
        assert(ol_number(li_count(p)) == p.len() + 1);
        assert(ol_flow(s) =~= Seq::new(
            s.len(),
            |j: int|
                (BlockView::ListItem {
                    marker: decimal((j + 1) as nat) + ". "@,
                    text: normalized(inline_text(s[j])),
                }),
        ));
    } else {
        assert(ol_flow(s) =~= Seq::<BlockView>::empty());
    }
}

proof fn lemma_inline_text_seq_concat(a: Seq<DomNode>, b: Seq<DomNode>)
    ensures
        inline_text_seq(a + b) == inline_text_seq(a) + inline_text_seq(b),
    decreases b.len(),
{
    if b.len() == 0 {
        assert(a + b =~= a);
        assert(inline_text_seq(a) + Seq::<char>::empty() =~= inline_text_seq(a));
    } else {
        lemma_inline_text_seq_concat(a, b.drop_last());
        assert((a + b).drop_last() =~= a + b.drop_last());
        assert((a + b).last() == b.last());
        assert(inline_text_seq(a) + inline_text_seq(b.drop_last()) + inline_text(b.last()) =~= inline_text_seq(
            a,
        ) + (inline_text_seq(b.drop_last()) + inline_text(b.last())));
    }
}

/// The content of `<script>`, `<style>`, `<noscript>`, `<svg>` and
/// `<iframe>` is never shown: such an element gives no block and no text,
/// and taking it out from among its siblings leaves their blocks and text
/// as they were.
pub proof fn lemma_hidden_content_is_dropped(s: Seq<DomNode>, i: int)
    requires
        0 <= i < s.len(),
        s[i] matches DomNode::Element { name, .. } && (name@ == "script"@ || name@ == "style"@ || name@
            == "noscript"@ || name@ == "svg"@ || name@ == "iframe"@),
    ensures
        flow(s[i]) == Seq::<BlockView>::empty(),
        inline_text(s[i]) == Seq::<char>::empty(),
        pre_text(s[i]) == Seq::<char>::empty(),
        flow_seq(s) == flow_seq(s.remove(i)),
        inline_text_seq(s) == inline_text_seq(s.remove(i)),
{
    let one = seq![s[i]];
    let a = s.take(i);
    let b = s.skip(i + 1);
    if let DomNode::Element { name, .. } = s[i] {
        assert(is_skipped(name@));
    }
    assert(flow(s[i]) == Seq::<BlockView>::empty());
    assert(inline_text(s[i]) == Seq::<char>::empty());
    assert(a + one + b =~= s);
    assert(a + b =~= s.remove(i));
    assert(one.drop_last() =~= Seq::<DomNode>::empty());
    assert(one.last() == s[i]);
    assert(flow_seq(one.drop_last()) == Seq::<BlockView>::empty());
    assert(inline_text_seq(one.drop_last()) == Seq::<char>::empty());
    assert(Seq::<BlockView>::empty() + Seq::<BlockView>::empty() =~= Seq::<BlockView>::empty());
    assert(Seq::<char>::empty() + Seq::<char>::empty() =~= Seq::<char>::empty());
    assert(flow_seq(one) == Seq::<BlockView>::empty());
    assert(inline_text_seq(one) == Seq::<char>::empty());
    lemma_flow_seq_concat(a, one);
    lemma_flow_seq_concat(a + one, b);
    lemma_flow_seq_concat(a, b);
    lemma_inline_text_seq_concat(a, one);
    lemma_inline_text_seq_concat(a + one, b);
    lemma_inline_text_seq_concat(a, b);
    assert(flow_seq(a) + Seq::<BlockView>::empty() =~= flow_seq(a));
    assert(inline_text_seq(a) + Seq::<char>::empty() =~= inline_text_seq(a));
}

/// A block element (`p`, `div`, ...) whose children are all text gives a
/// single paragraph of that text with each line's whitespace collapsed, or
/// nothing when it is blank; text without line breaks becomes its words
/// joined by single spaces.
pub proof fn lemma_plain_block(n: DomNode)
    requires
        n matches DomNode::Element { name, children, .. } && is_block_name(name@) && forall|j: int|
            0 <= j < children.len() ==> (#[trigger] children[j]) is Text,
    ensures
        flow(n) == if normalized_multiline(inline_text(n)).len() > 0 {
            seq![(BlockView::Paragraph { text: normalized_multiline(inline_text(n)) })]
        } else {
            Seq::<BlockView>::empty()
        },
        !inline_text(n).contains('\n') ==> flow(n) == if normalized(inline_text(n)).len() > 0 {
            seq![(BlockView::Paragraph { text: normalized(inline_text(n)) })]
        } else {
            Seq::<BlockView>::empty()
        },
{
    if let DomNode::Element { name, children, .. } = n {
        lemma_block_name_is_plain(name@);
        assert(!has_structural_child(children@)) by {
            if has_structural_child(children@) {
                let i = choose|i: int| 0 <= i < children@.len() && is_structural(#[trigger] children@[i]);
                assert(children@[i] is Text);
            }
        }
        if !inline_text(n).contains('\n') {
            crate::text::lemma_multiline_without_newline(inline_text(n));
        }
    }
}

/// What single nodes give: text is a paragraph of its words joined by single
/// spaces (none when it is blank), `<hr>` a rule, `<br>` a paragraph holding
/// a line break, and an `<li>` outside a list a bulleted item of its text.
pub proof fn lemma_simple_blocks(n: DomNode)
    ensures
        n matches DomNode::Text { contents } ==> flow(n) == if trim(contents@).len() > 0 {
            seq![(BlockView::Paragraph { text: normalized(contents@) })]
        } else {
            Seq::<BlockView>::empty()
        },
        n.is_element_named("hr"@) ==> flow(n) == seq![BlockView::Rule],
        n.is_element_named("br"@) ==> flow(n) == seq![(BlockView::Paragraph { text: seq!['\n'] })],
        n.is_element_named("li"@) ==> flow(n) == if normalized(inline_text(n)).len() > 0 {
            seq![(BlockView::ListItem { marker: "• "@, text: normalized(inline_text(n)) })]
        } else {
            Seq::<BlockView>::empty()
        },
{
    reveal_strlit("hr");
    reveal_strlit("br");
    reveal_strlit("ul");
    reveal_strlit("ol");
    reveal_strlit("li");
    reveal_strlit("script");
    reveal_strlit("style");
    reveal_strlit("noscript");
    reveal_strlit("svg");
    reveal_strlit("iframe");
    reveal_strlit("• ");
    match n {
        DomNode::Text { contents } => {
            crate::text::lemma_trim_words(contents@);
        },
        DomNode::Element { name, .. } => {
            if name@ == "hr"@ {
                assert(name@[0] == 'h' && name@[1] == 'r');
                assert(!is_skipped(name@) && name@ != "br"@);
            } else if name@ == "br"@ {
                assert(name@[0] == 'b' && name@.len() == 2);
                assert(!is_skipped(name@));
            } else if name@ == "li"@ {
                assert(name@[0] == 'l' && name@.len() == 2);
                assert(!is_skipped(name@) && name@ != "br"@ && name@ != "hr"@ && name@ != "ul"@
                    && name@ != "ol"@);
                assert(bullet() == "• "@);
            }
        },
        _ => {},
    }
}

/// A heading element `h1` to `h6` is one heading block of its level holding
/// its visible inline text, or no block when it has none.
pub proof fn lemma_heading_block(n: DomNode, k: u8)
    requires
        1 <= k <= 6,
        n.is_element_named(seq!['h', digit_char(k as nat)]),
    ensures
        inline_text(n).len() > 0 ==> flow(n) == seq![(BlockView::Heading { level: k, text: inline_text(n) })],
        inline_text(n).len() == 0 ==> flow(n) == Seq::<BlockView>::empty(),
{
    reveal_strlit("h1");
    reveal_strlit("h2");
    reveal_strlit("h3");
    reveal_strlit("h4");
    reveal_strlit("h5");
    reveal_strlit("h6");
    reveal_strlit("br");
    reveal_strlit("hr");
    reveal_strlit("ul");
    reveal_strlit("ol");
    reveal_strlit("li");
    reveal_strlit("script");
    reveal_strlit("style");
    reveal_strlit("noscript");
    reveal_strlit("svg");
    reveal_strlit("iframe");
    if let DomNode::Element { name, .. } = n {
        let d = digit_char(k as nat);
        assert(name@[0] == 'h' && name@[1] == d && name@.len() == 2);
        assert((d as u32) == k + 48);
        assert(!is_skipped(name@));
        assert(name@ != "br"@ && name@ != "hr"@ && name@ != "ul"@ && name@ != "ol"@ && name@ != "li"@);
        if k == 1 {
            assert(name@ =~= "h1"@);
        } else if k == 2 {
            assert(name@ =~= "h2"@);
        } else if k == 3 {
            assert(name@ =~= "h3"@);
        } else if k == 4 {
            assert(name@ =~= "h4"@);
        } else if k == 5 {
            assert(name@ =~= "h5"@);
        } else {
            assert(name@ =~= "h6"@);
        }
        assert(heading_of(name@) == Some(k));
    }
}

/// `a` is a prefix of `b`: `b` holds `a`'s blocks first, unchanged.
pub open spec fn extends(a: Seq<FlowBlock>, b: Seq<FlowBlock>) -> bool {
    a.len() <= b.len() && b.subrange(0, a.len() as int) == a
}

proof fn lemma_extends_push(v: Seq<FlowBlock>, b: FlowBlock)
    ensures
        extends(v, v.push(b)),
{
    assert(v.push(b).subrange(0, v.len() as int) =~= v);
}

proof fn lemma_extends_trans(a: Seq<FlowBlock>, b: Seq<FlowBlock>, c: Seq<FlowBlock>)
    requires
        extends(a, b),
        extends(b, c),
    ensures
        extends(a, c),
{
    assert(c.subrange(0, a.len() as int) =~= b.subrange(0, a.len() as int));
}

proof fn lemma_extends_refl(a: Seq<FlowBlock>)
    ensures
        extends(a, a),
{
    assert(a.subrange(0, a.len() as int) =~= a);
}

proof fn lemma_blocks_view_push(v: Seq<FlowBlock>, b: FlowBlock)
    ensures
        blocks_view(v.push(b)) == blocks_view(v).push(b@),
{
    assert(blocks_view(v.push(b)) =~= blocks_view(v).push(b@));
}

/// The heading level of the element named `local`, if it is a heading.
fn heading_level(local: &String) -> (r: Option<u8>)
    ensures
        r == heading_of(local@),
{
    if name_is(local, "h1") {
        Some(1)
    } else if name_is(local, "h2") {
        Some(2)
    } else if name_is(local, "h3") {
        Some(3)
    } else if name_is(local, "h4") {
        Some(4)
    } else if name_is(local, "h5") {
        Some(5)
    } else if name_is(local, "h6") {
        Some(6)
    } else {
        None
    }
}

/// Whether the content of the element named `local` is hidden.
fn skip_local(local: &String) -> (r: bool)
    ensures
        r == is_skipped(local@),
{
    name_is(local, "script") || name_is(local, "style") || name_is(local, "noscript")
        || name_is(local, "svg") || name_is(local, "iframe")
}

/// Whether the element named `local` is a block.
fn is_block_local(local: &String) -> (r: bool)
    ensures
        r == is_block_name(local@),
{
    name_is(local, "p") || name_is(local, "div") || name_is(local, "section") || name_is(
        local,
        "article",
    ) || name_is(local, "main") || name_is(local, "nav") || name_is(local, "header") || name_is(
        local,
        "footer",
    ) || name_is(local, "aside") || name_is(local, "blockquote") || name_is(local, "figure")
        || name_is(local, "figcaption") || name_is(local, "address") || name_is(local, "body")
}

/// Whether `n` is an `<li>` element.
fn is_li(n: &DomNode) -> (r: bool)
    ensures
        r == n.is_element_named("li"@),
{
    match n {
        DomNode::Element { name, .. } => name_is(name, "li"),
        _ => false,
    }
}

/// Whether the child `c` is structural.
fn is_structural_child(c: &DomNode) -> (r: bool)
    ensures
        r == is_structural(*c),
{
    match c {
        DomNode::Element { name, .. } => {
            is_block_local(name) || name_is(name, "ul") || name_is(name, "ol") || name_is(name, "li")
                || name_is(name, "hr") || heading_level(name).is_some() || name_is(name, "pre")
                || name_is(name, "br")
        },
        _ => false,
    }
}

/// Whether one of `children` is structural.
fn any_structural(children: &Vec<DomNode>) -> (r: bool)
    ensures
        r == has_structural_child(children@),
{
    for i in 0..children.len()
        invariant
            forall|j: int| 0 <= j < i ==> !is_structural(#[trigger] children@[j]),
    {
        if is_structural_child(&children[i]) {
            return true;
        }
    }
    false
}

/// Whether one of the children of `handle` is structural.
fn structure_block_child(handle: &DomNode) -> (r: bool)
    ensures
        r == has_structural_child(handle.kids()),
{
    match handle {
        DomNode::Document { children } => any_structural(children),
        DomNode::Element { children, .. } => any_structural(children),
        DomNode::Other { children } => any_structural(children),
        DomNode::Text { .. } => false,
    }
}

/// The visible inline text of `handle`.
#[verifier::loop_isolation(false)]
fn collect_visible_inline(handle: &DomNode) -> (r: String)
    ensures
        r@ == inline_text(*handle),
    decreases handle,
{
    match handle {
        DomNode::Text { contents } => contents.clone(),
        DomNode::Element { name, children, .. } => {
            if skip_local(name) {
                return String::new();
            }
            if name_is(name, "br") {
                let mut nl = String::new();
                push_char(&mut nl, '\n');
                proof {
                    assert(nl@ =~= seq!['\n']);
                }
                return nl;
            }
            let mut out = String::new();
            for i in 0..children.len()
                invariant
                    out@ == inline_text_seq(children@.take(i as int)),
            {
                proof {
                    assert(decreases_to!(*handle => children@[i as int]));
                }
                let t = collect_visible_inline(&children[i]);
                out.append(t.as_str());
                proof {
                    assert(children@.take(i + 1).drop_last() == children@.take(i as int));
                }
            }
            proof {
                assert(children@.take(children.len() as int) == children@);
            }
            out
        },
        _ => String::new(),
    }
}

/// The text of `handle` inside `<pre>`.
#[verifier::loop_isolation(false)]
fn collect_preformatted(handle: &DomNode) -> (r: String)
    ensures
        r@ == pre_text(*handle),
    decreases handle,
{
    match handle {
        DomNode::Text { contents } => contents.clone(),
        DomNode::Element { name, children, .. } => {
            if skip_local(name) {
                return String::new();
            }
            let is_br = name_is(name, "br");
            let mut out = String::new();
            if is_br {
                push_char(&mut out, '\n');
            }
            let ghost start = out@;
            proof {
                assert(start =~= if is_br { seq!['\n'] } else { Seq::<char>::empty() });
            }
            for i in 0..children.len()
                invariant
                    out@ == start + pre_text_seq(children@.take(i as int)),
            {
                proof {
                    assert(decreases_to!(*handle => children@[i as int]));
                }
                let t = collect_preformatted(&children[i]);
                out.append(t.as_str());
                proof {
                    assert(children@.take(i + 1).drop_last() == children@.take(i as int));
                    assert(out@ =~= start + pre_text_seq(children@.take(i + 1)));
                }
            }
            proof {
                assert(children@.take(children.len() as int) == children@);
                assert(start + pre_text_seq(children@) =~= pre_text(*handle));
            }
            out
        },
        _ => String::new(),
    }
}

/// Whether `s` holds a newline.
fn has_newline(s: &str) -> (r: bool)
    ensures
        r == s@.contains('\n'),
{
    for c in it: s.chars()
        invariant
            it.seq() == s@,
            forall|j: int| 0 <= j < it.index() ==> s@[j] != '\n',
    {
        if c == '\n' {
            return true;
        }
    }
    false
}

/// Appends the list item for `li` with `marker`, unless its text is empty.
fn push_li(out: &mut Vec<FlowBlock>, marker: &str, li: &DomNode)
    ensures
        extends(old(out)@, final(out)@),
        blocks_view(final(out)@) == blocks_view(old(out)@) + li_item(marker@, *li),
{
    proof {
        lemma_extends_refl(out@);
    }
    let inline = collect_visible_inline(li);
    let text = normalize_ws(inline.as_str());
    if !text.as_str().is_empty() {
        let b = FlowBlock::ListItem { marker: marker.to_owned(), text };
        proof {
            lemma_extends_push(out@, b);
            lemma_blocks_view_push(out@, b);
        }
        out.push(b);
    }
    proof {
        assert(blocks_view(out@) =~= blocks_view(old(out)@) + li_item(marker@, *li));
    }
}

/// Appends the blocks of each of `children` to `out`.
#[verifier::loop_isolation(false)]
fn extract_flow_children(children: &Vec<DomNode>, out: &mut Vec<FlowBlock>)
    ensures
        extends(old(out)@, final(out)@),
        blocks_view(final(out)@) == blocks_view(old(out)@) + flow_seq(children@),
    decreases children,
{
    let ghost before = blocks_view(out@);
    let ghost orig = out@;
    proof {
        lemma_extends_refl(orig);
    }
    for i in 0..children.len()
        invariant
            extends(orig, out@),
            blocks_view(out@) == before + flow_seq(children@.take(i as int)),
    {
        proof {
            assert(decreases_to!(*children => children@[i as int]));
            assert(children@.take(i + 1).drop_last() == children@.take(i as int));
        }
        let ghost prev = out@;
        extract_flow_inner(&children[i], out);
        proof {
            lemma_extends_trans(orig, prev, out@);
            assert(blocks_view(out@) =~= before + flow_seq(children@.take(i + 1)));
        }
    }
    proof {
        assert(children@.take(children.len() as int) == children@);
    }
}

/// Appends the blocks of the children of a `<ul>` to `out`.
#[verifier::loop_isolation(false)]
fn extract_ul_children(children: &Vec<DomNode>, out: &mut Vec<FlowBlock>)
    ensures
        extends(old(out)@, final(out)@),
        blocks_view(final(out)@) == blocks_view(old(out)@) + ul_flow(children@),
    decreases children,
{
    let ghost before = blocks_view(out@);
    let ghost orig = out@;
    proof {
        lemma_extends_refl(orig);
    }
    for i in 0..children.len()
        invariant
            extends(orig, out@),
            blocks_view(out@) == before + ul_flow(children@.take(i as int)),
    {
        let c = &children[i];
        proof {
            assert(decreases_to!(*children => children@[i as int]));
            assert(children@.take(i + 1).drop_last() == children@.take(i as int));
            assert(children@.take(i + 1).last() == *c);
        }
        let ghost prev = out@;
        if is_li(c) {
            push_li(out, "• ", c);
        } else {
            extract_flow_inner(c, out);
        }
        proof {
            lemma_extends_trans(orig, prev, out@);
            assert(blocks_view(out@) =~= before + ul_flow(children@.take(i + 1)));
        }
    }
    proof {
        assert(children@.take(children.len() as int) == children@);
    }
}

/// Appends the blocks of the children of an `<ol>` to `out`.
#[verifier::loop_isolation(false)]
fn extract_ol_children(children: &Vec<DomNode>, out: &mut Vec<FlowBlock>)
    ensures
        extends(old(out)@, final(out)@),
        blocks_view(final(out)@) == blocks_view(old(out)@) + ol_flow(children@),
    decreases children,
{
    let ghost before = blocks_view(out@);
    let ghost orig = out@;
    proof {
        lemma_extends_refl(orig);
    }
    let mut num: u32 = 1;
    for i in 0..children.len()
        invariant
            extends(orig, out@),
            blocks_view(out@) == before + ol_flow(children@.take(i as int)),
            num == ol_number(li_count(children@.take(i as int))),
    {
        let c = &children[i];
        proof {
            assert(decreases_to!(*children => children@[i as int]));
            assert(children@.take(i + 1).drop_last() == children@.take(i as int));
            assert(children@.take(i + 1).last() == *c);
        }
        let ghost prev = out@;
        if is_li(c) {
            let mut marker = decimal_string(num);
            marker.append(". ");
            push_li(out, marker.as_str(), c);
            num = num.saturating_add(1);
        } else {
            extract_flow_inner(c, out);
        }
        proof {
            lemma_extends_trans(orig, prev, out@);
            assert(blocks_view(out@) =~= before + ol_flow(children@.take(i + 1)));
        }
    }
    proof {
        assert(children@.take(children.len() as int) == children@);
    }
}

/// Appends `b` to `out` when `keep` holds.
fn push_if(out: &mut Vec<FlowBlock>, keep: bool, b: FlowBlock)
    ensures
        extends(old(out)@, final(out)@),
        blocks_view(final(out)@) == blocks_view(old(out)@) + if keep {
            seq![b@]
        } else {
            Seq::<BlockView>::empty()
        },
{
    proof {
        lemma_extends_refl(out@);
    }
    if keep {
        proof {
            lemma_extends_push(out@, b);
            lemma_blocks_view_push(out@, b);
        }
        out.push(b);
    }
    proof {
        assert(blocks_view(out@) =~= blocks_view(old(out)@) + if keep {
            seq![b@]
        } else {
            Seq::<BlockView>::empty()
        });
    }
}

/// Appends the blocks of `handle` to `out`; the blocks already in `out`
/// stay as they are.
pub fn extract_flow_inner(handle: &DomNode, out: &mut Vec<FlowBlock>)
    ensures
        extends(old(out)@, final(out)@),
        blocks_view(final(out)@) == blocks_view(old(out)@) + flow(*handle),
    decreases handle,
{
    proof {
        lemma_extends_refl(out@);
    }
    match handle {
        DomNode::Text { contents } => {
            let t = trim_str(contents.as_str());
            let keep = !t.as_str().is_empty();
            push_if(out, keep, FlowBlock::Paragraph { text: normalize_ws(t.as_str()) });
        },
        DomNode::Element { name, children, .. } => {
            if skip_local(name) {
                assert(blocks_view(out@) =~= blocks_view(old(out)@) + flow(*handle));
            } else if name_is(name, "br") {
                let mut nl = String::new();
                push_char(&mut nl, '\n');
                assert(nl@ =~= seq!['\n']);
                push_if(out, true, FlowBlock::Paragraph { text: nl });
            } else if name_is(name, "hr") {
                push_if(out, true, FlowBlock::Rule);
            } else if name_is(name, "ul") {
                extract_ul_children(children, out);
            } else if name_is(name, "ol") {
                extract_ol_children(children, out);
            } else if name_is(name, "li") {
                push_li(out, "• ", handle);
            } else if let Some(level) = heading_level(name) {
                let text = collect_visible_inline(handle);
                let keep = !text.as_str().is_empty();
                push_if(out, keep, FlowBlock::Heading { level, text });
            } else if name_is(name, "pre") {
                let text = collect_preformatted(handle);
                let trimmed = trim_str(text.as_str());
                let keep = !trimmed.as_str().is_empty() || has_newline(text.as_str());
                push_if(out, keep, FlowBlock::Pre { text });
            } else if is_block_local(name) {
                if any_structural(children) {
                    extract_flow_children(children, out);
                } else {
                    let inline = collect_visible_inline(handle);
                    let text = normalize_ws_multiline(inline.as_str());
                    let keep = !text.as_str().is_empty();
                    push_if(out, keep, FlowBlock::Paragraph { text });
                }
            } else {
                extract_flow_children(children, out);
            }
        },
        _ => {
            assert(blocks_view(out@) =~= blocks_view(old(out)@) + flow(*handle));
        },
    }
}

/// The blocks of the document (sub)tree under `root`, in document order.
pub fn extract_flow(root: &DomNode) -> (r: Vec<FlowBlock>)
    ensures
        blocks_view(r@) == flow(*root),
{
    let mut out = Vec::new();
    extract_flow_inner(root, &mut out);
    proof {
        assert(blocks_view(Seq::<FlowBlock>::empty()) =~= Seq::<BlockView>::empty());
        assert(Seq::<BlockView>::empty() + flow(*root) =~= flow(*root));
    }
    out
}

} // verus!
