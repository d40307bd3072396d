//! What a page is made of: its title, its plain text, its links and its
//! blocks.
use crate::dom::{name_is, parse_html, spec_parsed_document, DomNode};
use crate::flow::{blocks_view, extract_flow, flow, FlowBlock};
use crate::text::{
    collapse_ws, join, lemma_join_push, lemma_words_of_all_concat, lemma_words_of_join_spaced,
    normalized, words, words_of_all,
};
use vstd::prelude::*;

verus! {

/// The metadata and text of a page.
pub struct RenderedPage {
    pub url: String,
    pub title: String,
    pub text: String,
    pub links: Vec<String>,
}

/// The mathematical value of a [`RenderedPage`].
pub struct PageView {
    pub url: Seq<char>,
    pub title: Seq<char>,
    pub text: Seq<char>,
    pub links: Seq<Seq<char>>,
}

/// The views of a sequence of strings.
pub open spec fn strings_view(v: Seq<String>) -> Seq<Seq<char>> {
    v.map_values(|s: String| s@)
}

impl View for RenderedPage {
    type V = PageView;

    open spec fn view(&self) -> PageView {
        PageView {
            url: self.url@,
            title: self.title@,
            text: self.text@,
            links: strings_view(self.links@),
        }
    }
}

/// The most links a page reports.
pub const MAX_LINKS: usize = 100;

// ---------------------------------------------------------------------------
// Outside functions
// ---------------------------------------------------------------------------

/// What `html_escape::decode_html_entities` makes of `s`.
pub uninterp spec fn spec_decode_html_entities(s: Seq<char>) -> Seq<char>;

/// Whether `url::Url::parse` accepts `s`.
pub uninterp spec fn spec_url_parses(s: Seq<char>) -> bool;

/// The serialization of `href` resolved against `base`, with `url::Url::parse`
/// on `base` and `url::Url::join`; `None` when either fails.
pub uninterp spec fn spec_url_join(base: Seq<char>, href: Seq<char>) -> Option<Seq<char>>;

/// Calls `html_escape::decode_html_entities`. The result is named by
/// `spec_decode_html_entities`; the crate returns text that holds no `&`
/// unchanged.
#[verifier::external_body]
fn decode_html_entities(s: &str) -> (r: String)
    ensures
        r@ == spec_decode_html_entities(s@),
        !s@.contains('&') ==> r@ == s@,
{
    html_escape::decode_html_entities(s).to_string()
}

/// Calls `url::Url::parse` and reports whether it succeeded.
#[verifier::external_body]
fn url_parses(s: &str) -> (r: bool)
    ensures
        r == spec_url_parses(s@),
{
    url::Url::parse(s).is_ok()
}

/// Calls `url::Url::parse` on `base`, then `url::Url::join` with `href`, and
/// serializes the result; the outcome is named by `spec_url_join`.
#[verifier::external_body]
fn url_join(base: &str, href: &str) -> (r: Option<String>)
    ensures
        match r {
            Some(u) => spec_url_join(base@, href@) == Some(u@),
            None => spec_url_join(base@, href@) is None,
        },
{
    match url::Url::parse(base) {
        Ok(b) => b.join(href).ok().map(|u| u.to_string()),
        Err(_) => None,
    }
}

// ---------------------------------------------------------------------------
// Specification
// ---------------------------------------------------------------------------

/// The first node under `n` (itself included), in document order, that is an
/// element named `tag`.
pub open spec fn find_first(n: DomNode, tag: Seq<char>) -> Option<DomNode>
    decreases n,
{
    if n.is_element_named(tag) {
        Some(n)
    } else {
        match n {
            DomNode::Document { children } => find_first_seq(children@, tag),
            DomNode::Element { children, .. } => find_first_seq(children@, tag),
            DomNode::Other { children } => find_first_seq(children@, tag),
            DomNode::Text { .. } => None,
        }
    }
}

/// The first match of [`find_first`] among the subtrees `s`.
pub open spec fn find_first_seq(s: Seq<DomNode>, tag: Seq<char>) -> Option<DomNode>
    decreases s,
{
    if s.len() == 0 {
        None
    } else {
        match find_first_seq(s.drop_last(), tag) {
            Some(x) => Some(x),
            None => find_first(s.last(), tag),
        }
    }
}

/// All the text under `n`, concatenated.
pub open spec fn all_text(n: DomNode) -> Seq<char>
    decreases n,
{
    match n {
        DomNode::Text { contents } => contents@,
        DomNode::Document { children } => all_text_seq(children@),
        DomNode::Element { children, .. } => all_text_seq(children@),
        DomNode::Other { children } => all_text_seq(children@),
    }
}

/// The texts of `s`, concatenated.
pub open spec fn all_text_seq(s: Seq<DomNode>) -> Seq<char>
    decreases s,
{
    if s.len() == 0 {
        seq![]
    } else {
        all_text_seq(s.drop_last()) + all_text(s.last())
    }
}

/// Elements whose text is not visible.
pub open spec fn is_invisible(name: Seq<char>) -> bool {
    name == "script"@ || name == "style"@ || name == "noscript"@
}

/// The visible text under `n`: the non-empty visible texts of the children
/// joined by single spaces.
pub open spec fn visible_text(n: DomNode) -> Seq<char>
    decreases n,
{
    match n {
        DomNode::Text { contents } => contents@,
        DomNode::Element { name, children, .. } => if is_invisible(name@) {
            seq![]
        } else {
            join(visible_parts(children@), seq![' '])
        },
        DomNode::Document { children } => join(visible_parts(children@), seq![' ']),
        DomNode::Other { children } => join(visible_parts(children@), seq![' ']),
    }
}

/// The non-empty visible texts of `s`, in order.
pub open spec fn visible_parts(s: Seq<DomNode>) -> Seq<Seq<char>>
    decreases s,
{
    if s.len() == 0 {
        seq![]
    } else {
        let t = visible_text(s.last());
        if t.len() > 0 {
            visible_parts(s.drop_last()).push(t)
        } else {
            visible_parts(s.drop_last())
        }
    }
}

/// The values of the `href` attributes among `attrs`, in order.
pub open spec fn href_values(attrs: Seq<crate::dom::Attribute>) -> Seq<Seq<char>>
    decreases attrs.len(),
{
    if attrs.len() == 0 {
        seq![]
    } else {
        href_values(attrs.drop_last()) + if attrs.last().name@ == "href"@ {
            seq![attrs.last().value@]
        } else {
            Seq::<Seq<char>>::empty()
        }
    }
}

/// The `href` values of the `<a>` elements under `n`, in document order.
pub open spec fn hrefs(n: DomNode) -> Seq<Seq<char>>
    decreases n,
{
    match n {
        DomNode::Element { name, attrs, children } => (if name@ == "a"@ {
            href_values(attrs@)
        } else {
            Seq::<Seq<char>>::empty()
        }) + hrefs_seq(children@),
        DomNode::Document { children } => hrefs_seq(children@),
        DomNode::Other { children } => hrefs_seq(children@),
        DomNode::Text { .. } => seq![],
    }
}

/// The `href` values under each of `s`, concatenated.
pub open spec fn hrefs_seq(s: Seq<DomNode>) -> Seq<Seq<char>>
    decreases s,
{
    if s.len() == 0 {
        seq![]
    } else {
        hrefs_seq(s.drop_last()) + hrefs(s.last())
    }
}

/// Whether a link target is kept: in-page anchors and `javascript:void(0)`
/// are dropped.
pub open spec fn keeps_link(h: Seq<char>) -> bool {
    !(h.len() > 0 && h[0] == '#') && h != "javascript:void(0)"@
}

/// The kept links of `s`, in order.
pub open spec fn kept_links(s: Seq<Seq<char>>) -> Seq<Seq<char>>
    decreases s.len(),
{
    if s.len() == 0 {
        seq![]
    } else if keeps_link(s.last()) {
        kept_links(s.drop_last()).push(s.last())
    } else {
        kept_links(s.drop_last())
    }
}

/// The first `MAX_LINKS` kept links of `s`.
pub open spec fn first_links(s: Seq<Seq<char>>) -> Seq<Seq<char>> {
    let k = kept_links(s);
    if k.len() <= MAX_LINKS {
        k
    } else {
        k.take(MAX_LINKS as int)
    }
}

/// The links `s` resolved against the page's address: when the address parses,
/// each link is joined to it and those that do not join are dropped;
/// otherwise the links stay as they are.
pub open spec fn resolved_links(page_url: Seq<char>, s: Seq<Seq<char>>) -> Seq<Seq<char>>
    decreases s.len(),
{
    if !spec_url_parses(page_url) {
        s
    } else if s.len() == 0 {
        seq![]
    } else {
        resolved_links(page_url, s.drop_last()) + match spec_url_join(page_url, s.last()) {
            Some(u) => seq![u],
            None => Seq::<Seq<char>>::empty(),
        }
    }
}

/// The links a page reports.
pub open spec fn page_links(root: DomNode, page_url: Seq<char>) -> Seq<Seq<char>> {
    resolved_links(page_url, first_links(hrefs(root)))
}

/// The node whose blocks are shown: the first `<body>`, else the root.
pub open spec fn body_of(root: DomNode) -> DomNode {
    match find_first(root, "body"@) {
        Some(b) => b,
        None => root,
    }
}

/// The text of the first `<title>` element, before entities are decoded;
/// empty when there is none.
pub open spec fn raw_title(root: DomNode) -> Seq<char> {
    match find_first(root, "title"@) {
        Some(t) => all_text(t),
        None => Seq::empty(),
    }
}

/// The metadata and text of the document under `root`.
pub open spec fn page_of(root: DomNode, page_url: Seq<char>) -> PageView {
    PageView {
        url: page_url,
        title: spec_decode_html_entities(raw_title(root)),
        text: normalized(visible_text(body_of(root))),
        links: page_links(root, page_url),
    }
}

// ---------------------------------------------------------------------------
// Lemmas
// ---------------------------------------------------------------------------

/// What the search finds is an element of the name searched for, and a node
/// of that name is found itself.
pub proof fn lemma_find_first_named(n: DomNode, tag: Seq<char>)
    ensures
        find_first(n, tag) matches Some(x) ==> x.is_element_named(tag),
        n.is_element_named(tag) ==> find_first(n, tag) == Some(n),
    decreases n,
{
    if !n.is_element_named(tag) {
        match n {
            DomNode::Document { children } => lemma_find_first_seq_named(children@, tag),
            DomNode::Element { children, .. } => lemma_find_first_seq_named(children@, tag),
            DomNode::Other { children } => lemma_find_first_seq_named(children@, tag),
            DomNode::Text { .. } => {},
        }
    }
}

proof fn lemma_find_first_seq_named(s: Seq<DomNode>, tag: Seq<char>)
    ensures
        find_first_seq(s, tag) matches Some(x) ==> x.is_element_named(tag),
    decreases s,
{
    if s.len() > 0 {
        lemma_find_first_seq_named(s.drop_last(), tag);
        lemma_find_first_named(s.last(), tag);
    }
}

/// The search goes in document order: what it finds among the first `i`
/// subtrees is what it finds among all of them.
pub proof fn lemma_find_first_seq_prefix(s: Seq<DomNode>, tag: Seq<char>, i: int)
    requires
        0 <= i <= s.len(),
        find_first_seq(s.take(i), tag) is Some,
    ensures
        find_first_seq(s, tag) == find_first_seq(s.take(i), tag),
    decreases s.len() - i,
{
    if i < s.len() {
        assert(s.take(i + 1).drop_last() == s.take(i));
        lemma_find_first_seq_prefix(s, tag, i + 1);
    } else {
        assert(s.take(i) == s);
    }
}

pub proof fn lemma_strings_view_push(v: Seq<String>, x: String)
    ensures
        strings_view(v.push(x)) == strings_view(v).push(x@),
{
    assert(strings_view(v.push(x)) =~= strings_view(v).push(x@));
}

proof fn lemma_resolved_push(page_url: Seq<char>, s: Seq<Seq<char>>, h: Seq<char>)
    ensures
        resolved_links(page_url, s.push(h)) == if !spec_url_parses(page_url) {
            s.push(h)
        } else {
            resolved_links(page_url, s) + match spec_url_join(page_url, h) {
                Some(u) => seq![u],
                None => Seq::<Seq<char>>::empty(),
            }
        },
{
    assert(s.push(h).drop_last() == s);
}

/// A page reports at most `MAX_LINKS` links.
pub proof fn lemma_page_links_bounded(root: DomNode, page_url: Seq<char>)
    ensures
        page_links(root, page_url).len() <= MAX_LINKS,
{
    lemma_resolved_len(page_url, first_links(hrefs(root)));
}

/// The plain text of a page has its whitespace collapsed: collapsing it again
/// changes nothing.
pub proof fn lemma_page_text_collapsed(root: DomNode, page_url: Seq<char>)
    ensures
        normalized(page_of(root, page_url).text) == page_of(root, page_url).text,
{
    crate::text::lemma_normalize_idempotent(visible_text(body_of(root)));
}

proof fn lemma_kept_links_kept(s: Seq<Seq<char>>)
    ensures
        forall|i: int| 0 <= i < kept_links(s).len() ==> keeps_link(#[trigger] kept_links(s)[i]),
    decreases s.len(),
{
    if s.len() > 0 {
        lemma_kept_links_kept(s.drop_last());
        let p = kept_links(s.drop_last());
        if keeps_link(s.last()) {
            assert forall|i: int| 0 <= i < p.push(s.last()).len() implies keeps_link(
                #[trigger] p.push(s.last())[i],
            ) by {
                if i < p.len() {
                    assert(p.push(s.last())[i] == p[i]);
                }
            }
        }
    }
}

/// When the page's address does not parse, the page reports its links as
/// written, and none of them is an in-page anchor or `javascript:void(0)`.
pub proof fn lemma_unresolved_links_are_kept(root: DomNode, page_url: Seq<char>)
    requires
        !spec_url_parses(page_url),
    ensures
        forall|i: int|
            0 <= i < page_links(root, page_url).len() ==> keeps_link(
                #[trigger] page_links(root, page_url)[i],
            ),
{
    let k = kept_links(hrefs(root));
    lemma_kept_links_kept(hrefs(root));
    if k.len() > MAX_LINKS {
        assert forall|i: int| 0 <= i < k.take(MAX_LINKS as int).len() implies keeps_link(
            #[trigger] k.take(MAX_LINKS as int)[i],
        ) by {
            assert(k.take(MAX_LINKS as int)[i] == k[i]);
        }
    }
}

proof fn lemma_visible_parts_concat(a: Seq<DomNode>, b: Seq<DomNode>)
    ensures
        visible_parts(a + b) == visible_parts(a) + visible_parts(b),
    decreases b.len(),
{
    if b.len() == 0 {
        assert(a + b =~= a);
        assert(visible_parts(a) + Seq::<Seq<char>>::empty() =~= visible_parts(a));
    } else {
        lemma_visible_parts_concat(a, b.drop_last());
        assert((a + b).drop_last() =~= a + b.drop_last());
        assert((a + b).last() == b.last());
        let t = visible_text(b.last());
        if t.len() > 0 {
            assert((visible_parts(a) + visible_parts(b.drop_last())).push(t) =~= visible_parts(a)
                + visible_parts(b.drop_last()).push(t));
        }
    }
}

/// The text under `<script>`, `<style>` and `<noscript>` is never visible:
/// such an element has no visible text, and taking it out from among its
/// siblings leaves their visible text as it was.
pub proof fn lemma_hidden_text_is_dropped(s: Seq<DomNode>, i: int)
    requires
        0 <= i < s.len(),
        s[i] matches DomNode::Element { name, .. } && (name@ == "script"@ || name@ == "style"@ || name@
            == "noscript"@),
    ensures
        visible_text(s[i]) == Seq::<char>::empty(),
        visible_parts(s) == visible_parts(s.remove(i)),
{
    let one = seq![s[i]];
    assert(visible_text(s[i]) == Seq::<char>::empty());
    assert(one.last() == s[i]);
    assert(one.drop_last() =~= Seq::<DomNode>::empty());
    assert(visible_parts(one.drop_last()) == Seq::<Seq<char>>::empty());
    assert(visible_parts(one) == Seq::<Seq<char>>::empty());
    lemma_visible_parts_concat(s.take(i), one);
    lemma_visible_parts_concat(s.take(i) + one, s.skip(i + 1));
    lemma_visible_parts_concat(s.take(i), s.skip(i + 1));
    assert(s.take(i) + one + s.skip(i + 1) =~= s);
    assert(s.take(i) + s.skip(i + 1) =~= s.remove(i));
    assert(visible_parts(s.take(i)) + Seq::<Seq<char>>::empty() =~= visible_parts(s.take(i)));
}

/// The plain text of a page leaves out a `<script>`, `<style>` or
/// `<noscript>` element among the children of the shown node: it is the
/// text of the other children, with whitespace collapsed.
pub proof fn lemma_page_text_skips_hidden(root: DomNode, page_url: Seq<char>, i: int)
    requires
        body_of(root) is Document || body_of(root).is_element_named("body"@),
        0 <= i < body_of(root).kids().len(),
        body_of(root).kids()[i] matches DomNode::Element { name, .. } && (name@ == "script"@ || name@
            == "style"@ || name@ == "noscript"@),
    ensures
        page_of(root, page_url).text == normalized(join(visible_parts(body_of(root).kids().remove(i)), seq![' '])),
{
    lemma_hidden_text_is_dropped(body_of(root).kids(), i);
    reveal_strlit("body");
    reveal_strlit("script");
    reveal_strlit("style");
    reveal_strlit("noscript");
    if let DomNode::Element { name, .. } = body_of(root) {
        assert(name@.len() == 4);
        assert(!is_invisible(name@));
    }
}

/// A link is dropped only when it is an in-page anchor (it starts with `#`)
/// or `javascript:void(0)`; any other link is kept, after those before it.
pub proof fn lemma_links_dropped_only_anchors(s: Seq<Seq<char>>, h: Seq<char>)
    ensures
        (h.len() > 0 && h[0] == '#') || h == "javascript:void(0)"@ ==> kept_links(s.push(h))
            == kept_links(s),
        !((h.len() > 0 && h[0] == '#') || h == "javascript:void(0)"@) ==> kept_links(s.push(h))
            == kept_links(s).push(h),
{
    assert(s.push(h).drop_last() == s);
    assert(s.push(h).last() == h);
}

proof fn lemma_kept_links_all(s: Seq<Seq<char>>)
    requires
        forall|j: int|
            0 <= j < s.len() ==> !(((#[trigger] s[j]).len() > 0 && s[j][0] == '#') || s[j]
                == "javascript:void(0)"@),
    ensures
        kept_links(s) == s,
    decreases s.len(),
{
    if s.len() > 0 {
        let p = s.drop_last();
        assert forall|j: int| 0 <= j < p.len() implies !(((#[trigger] p[j]).len() > 0 && p[j][0] == '#')
            || p[j] == "javascript:void(0)"@) by {
            assert(p[j] == s[j]);
        }
        lemma_kept_links_all(p);
        assert(s.last() == s[s.len() - 1]);
        assert(p.push(s.last()) =~= s);
    }
}

/// A page whose `<a>` elements carry at most `MAX_LINKS` hrefs, none of them
/// an in-page anchor or `javascript:void(0)`, reports every one of them, in
/// order: as written when the page's address does not parse, and otherwise
/// joined to it (an href that does not join is left out).
pub proof fn lemma_page_keeps_links(root: DomNode, page_url: Seq<char>)
    requires
        hrefs(root).len() <= MAX_LINKS,
        forall|j: int|
            0 <= j < hrefs(root).len() ==> !(((#[trigger] hrefs(root)[j]).len() > 0 && hrefs(root)[j][0]
                == '#') || hrefs(root)[j] == "javascript:void(0)"@),
    ensures
        page_links(root, page_url) == resolved_links(page_url, hrefs(root)),
        !spec_url_parses(page_url) ==> page_links(root, page_url) == hrefs(root),
{
    lemma_kept_links_all(hrefs(root));
}

/// When the page's address parses, each link is joined to it, in order, and
/// a link that does not join is left out.
pub proof fn lemma_links_joined_in_order(page_url: Seq<char>, s: Seq<Seq<char>>)
    requires
        spec_url_parses(page_url),
    ensures
        resolved_links(page_url, s) == s.filter_map(|h: Seq<char>| spec_url_join(page_url, h)),
    decreases s.len(),
{
    if s.len() > 0 {
        lemma_links_joined_in_order(page_url, s.drop_last());
    }
}

/// The contents of the text nodes under `n`, in document order, leaving out
/// those under `<script>`, `<style>` and `<noscript>` elements.
pub open spec fn shown_texts(n: DomNode) -> Seq<Seq<char>>
    decreases n,
{
    match n {
        DomNode::Text { contents } => seq![contents@],
        DomNode::Element { name, children, .. } => if name@ == "script"@ || name@ == "style"@ || name@
            == "noscript"@ {
            seq![]
        } else {
            shown_texts_seq(children@)
        },
        DomNode::Document { children } => shown_texts_seq(children@),
        DomNode::Other { children } => shown_texts_seq(children@),
    }
}

/// The shown texts under each of `s`, concatenated.
pub open spec fn shown_texts_seq(s: Seq<DomNode>) -> Seq<Seq<char>>
    decreases s,
{
    if s.len() == 0 {
        seq![]
    } else {
        shown_texts_seq(s.drop_last()) + shown_texts(s.last())
    }
}

/// The visible text of a node holds, in order, exactly the words of the text
/// nodes under it that are not inside `<script>`, `<style>` or `<noscript>`:
/// neighbouring texts are kept apart, never run together.
pub proof fn lemma_visible_words(n: DomNode)
    ensures
        words(visible_text(n)) == words_of_all(shown_texts(n)),
    decreases n,
{
    match n {
        DomNode::Text { contents } => {
            let one = seq![contents@];
            assert(one.drop_last() =~= Seq::<Seq<char>>::empty());
            assert(words_of_all(one.drop_last()) == Seq::<Seq<char>>::empty());
            assert(Seq::<Seq<char>>::empty() + words(contents@) =~= words(contents@));
        },
        DomNode::Element { name, children, .. } => {
            if !is_invisible(name@) {
                lemma_words_of_join_spaced(visible_parts(children@));
                lemma_visible_words_seq(children@);
            } else {
                assert(words(Seq::<char>::empty()) == Seq::<Seq<char>>::empty());
            }
        },
        DomNode::Document { children } => {
            lemma_words_of_join_spaced(visible_parts(children@));
            lemma_visible_words_seq(children@);
        },
        DomNode::Other { children } => {
            lemma_words_of_join_spaced(visible_parts(children@));
            lemma_visible_words_seq(children@);
        },
    }
}

proof fn lemma_visible_words_seq(s: Seq<DomNode>)
    ensures
        words_of_all(visible_parts(s)) == words_of_all(shown_texts_seq(s)),
    decreases s,
{
    if s.len() > 0 {
        let p = s.drop_last();
        lemma_visible_words_seq(p);
        lemma_visible_words(s.last());
        lemma_words_of_all_concat(shown_texts_seq(p), shown_texts(s.last()));
        let t = visible_text(s.last());
        if t.len() > 0 {
            assert(visible_parts(s).drop_last() == visible_parts(p));
        } else {
            assert(words(t) == Seq::<Seq<char>>::empty());
            assert(words_of_all(visible_parts(p)) + Seq::<Seq<char>>::empty() =~= words_of_all(
                visible_parts(p),
            ));
        }
    }
}

/// The plain text of a page holds, in order, exactly the words of the text
/// nodes of the shown node that are not inside `<script>`, `<style>` or
/// `<noscript>`.
pub proof fn lemma_page_text_words(root: DomNode, page_url: Seq<char>)
    ensures
        words(page_of(root, page_url).text) == words_of_all(shown_texts(body_of(root))),
{
    crate::text::lemma_normalize_keeps_words(visible_text(body_of(root)));
    lemma_visible_words(body_of(root));
}

/// When the page's address does not parse, the page reports the kept links
/// as written, in order, up to the first `MAX_LINKS` of them.
pub proof fn lemma_unresolved_links_are_first(root: DomNode, page_url: Seq<char>)
    requires
        !spec_url_parses(page_url),
    ensures
        page_links(root, page_url).len() == if kept_links(hrefs(root)).len() <= MAX_LINKS {
            kept_links(hrefs(root)).len()
        } else {
            MAX_LINKS as nat
        },
        forall|i: int|
            0 <= i < page_links(root, page_url).len() ==> #[trigger] page_links(root, page_url)[i]
                == kept_links(hrefs(root))[i],
{
}

proof fn lemma_resolved_len(page_url: Seq<char>, s: Seq<Seq<char>>)
    ensures
        resolved_links(page_url, s).len() <= s.len(),
    decreases s.len(),
{
    if spec_url_parses(page_url) && s.len() > 0 {
        lemma_resolved_len(page_url, s.drop_last());
    }
}

// ---------------------------------------------------------------------------
// Executable functions
// ---------------------------------------------------------------------------

/// The first element named `tag` among the subtrees `children`.
#[verifier::loop_isolation(false)]
fn find_in_children<'a>(children: &'a Vec<DomNode>, tag: &str) -> (r: Option<&'a DomNode>)
    ensures
        match r {
            Some(x) => find_first_seq(children@, tag@) == Some(*x),
            None => find_first_seq(children@, tag@) is None,
        },
    decreases children,
{
    for i in 0..children.len()
        invariant
            find_first_seq(children@.take(i as int), tag@) is None,
    {
        proof {
            assert(decreases_to!(*children => children@[i as int]));
            assert(children@.take(i + 1).drop_last() == children@.take(i as int));
        }
        if let Some(x) = find_first_element(&children[i], tag) {
            proof {
                lemma_find_first_seq_prefix(children@, tag@, i + 1);
            }
            return Some(x);
        }
    }
    proof {
        assert(children@.take(children.len() as int) == children@);
    }
    None
}

/// The first node under `handle` (itself included), in document order, that
/// is an element named `tag`.
fn find_first_element<'a>(handle: &'a DomNode, tag: &str) -> (r: Option<&'a DomNode>)
    ensures
        match r {
            Some(x) => find_first(*handle, tag@) == Some(*x),
            None => find_first(*handle, tag@) is None,
        },
    decreases handle,
{
    match handle {
        DomNode::Element { name, children, .. } => {
            if name_is(name, tag) {
                Some(handle)
            } else {
                find_in_children(children, tag)
            }
        },
        DomNode::Document { children } => find_in_children(children, tag),
        DomNode::Other { children } => find_in_children(children, tag),
        DomNode::Text { .. } => None,
    }
}

/// All the text under the subtrees `children`.
#[verifier::loop_isolation(false)]
fn collect_text_children(children: &Vec<DomNode>) -> (r: String)
    ensures
        r@ == all_text_seq(children@),
    decreases children,
{
    let mut out = String::new();
    for i in 0..children.len()
        invariant
            out@ == all_text_seq(children@.take(i as int)),
    {
        proof {
            assert(decreases_to!(*children => children@[i as int]));
            assert(children@.take(i + 1).drop_last() == children@.take(i as int));
        }
        let t = collect_text(&children[i]);
        out.append(t.as_str());
    }
    proof {
        assert(children@.take(children.len() as int) == children@);
    }
    out
}

/// All the text under `handle`, concatenated.
fn collect_text(handle: &DomNode) -> (r: String)
    ensures
        r@ == all_text(*handle),
    decreases handle,
{
    match handle {
        DomNode::Text { contents } => contents.clone(),
        DomNode::Element { children, .. } => collect_text_children(children),
        DomNode::Document { children } => collect_text_children(children),
        DomNode::Other { children } => collect_text_children(children),
    }
}

/// The non-empty visible texts of `children` joined by single spaces.
#[verifier::loop_isolation(false)]
fn collect_visible_children(children: &Vec<DomNode>) -> (r: String)
    ensures
        r@ == join(visible_parts(children@), seq![' ']),
    decreases children,
{
    let mut out = String::new();
    let mut has_part = false;
    for i in 0..children.len()
        invariant
            out@ == join(visible_parts(children@.take(i as int)), seq![' ']),
            has_part == (visible_parts(children@.take(i as int)).len() > 0),
    {
        proof {
            assert(decreases_to!(*children => children@[i as int]));
            assert(children@.take(i + 1).drop_last() == children@.take(i as int));
        }
        let t = collect_visible_text(&children[i]);
        if !t.as_str().is_empty() {
            proof {
                lemma_join_push(visible_parts(children@.take(i as int)), t@, seq![' ']);
            }
            if has_part {
                crate::text::push_char(&mut out, ' ');
            }
            out.append(t.as_str());
            has_part = true;
            proof {
                assert(out@ =~= join(visible_parts(children@.take(i + 1)), seq![' ']));
            }
        }
    }
    proof {
        assert(children@.take(children.len() as int) == children@);
    }
    out
}

/// The visible text under `handle`.
fn collect_visible_text(handle: &DomNode) -> (r: String)
    ensures
        r@ == visible_text(*handle),
    decreases handle,
{
    match handle {
        DomNode::Text { contents } => contents.clone(),
        DomNode::Element { name, children, .. } => {
            let skip = name_is(name, "script") || name_is(name, "style") || name_is(
                name,
                "noscript",
            );
            if skip {
                return String::new();
            }
            collect_visible_children(children)
        },
        DomNode::Document { children } => collect_visible_children(children),
        DomNode::Other { children } => collect_visible_children(children),
    }
}

/// Appends the `href` values among `attrs` to `out`.
fn push_href_values(attrs: &Vec<crate::dom::Attribute>, out: &mut Vec<String>)
    ensures
        strings_view(final(out)@) == strings_view(old(out)@) + href_values(attrs@),
{
    let ghost before = strings_view(out@);
    for i in 0..attrs.len()
        invariant
            strings_view(out@) == before + href_values(attrs@.take(i as int)),
    {
        let a = &attrs[i];
        proof {
            assert(attrs@.take(i + 1).drop_last() == attrs@.take(i as int));
            assert(attrs@.take(i + 1).last() == *a);
        }
        if name_is(&a.name, "href") {
            let v = a.value.clone();
            proof {
                lemma_strings_view_push(out@, v);
            }
            out.push(v);
        }
        proof {
            assert(strings_view(out@) =~= before + href_values(attrs@.take(i + 1)));
        }
    }
    proof {
        assert(attrs@.take(attrs.len() as int) == attrs@);
    }
}

/// Appends the `href` values under the subtrees `children` to `out`.
#[verifier::loop_isolation(false)]
fn collect_hrefs_children(children: &Vec<DomNode>, out: &mut Vec<String>)
    ensures
        strings_view(final(out)@) == strings_view(old(out)@) + hrefs_seq(children@),
    decreases children,
{
    let ghost before = strings_view(out@);
    for i in 0..children.len()
        invariant
            strings_view(out@) == before + hrefs_seq(children@.take(i as int)),
    {
        proof {
            assert(decreases_to!(*children => children@[i as int]));
            assert(children@.take(i + 1).drop_last() == children@.take(i as int));
        }
        collect_hrefs(&children[i], out);
        proof {
            assert(strings_view(out@) =~= before + hrefs_seq(children@.take(i + 1)));
        }
    }
    proof {
        assert(children@.take(children.len() as int) == children@);
    }
}

/// Appends the `href` values of the `<a>` elements under `handle` to `out`,
/// in document order.
fn collect_hrefs(handle: &DomNode, out: &mut Vec<String>)
    ensures
        strings_view(final(out)@) == strings_view(old(out)@) + hrefs(*handle),
    decreases handle,
{
    match handle {
        DomNode::Element { name, attrs, children } => {
            let ghost before = strings_view(out@);
            if name_is(name, "a") {
                push_href_values(attrs, out);
            }
            collect_hrefs_children(children, out);
            proof {
                assert(strings_view(out@) =~= before + hrefs(*handle));
            }
        },
        DomNode::Document { children } => collect_hrefs_children(children, out),
        DomNode::Other { children } => collect_hrefs_children(children, out),
        DomNode::Text { .. } => {
            assert(strings_view(out@) =~= strings_view(old(out)@) + hrefs(*handle));
        },
    }
}

/// Whether the link target `h` is kept.
fn keep_link(h: &String) -> (r: bool)
    ensures
        r == keeps_link(h@),
{
    let starts_with_hash = if h.as_str().is_empty() {
        false
    } else {
        h.as_str().get_char(0) == '#'
    };
    !starts_with_hash && !name_is(h, "javascript:void(0)")
}

/// The first `MAX_LINKS` kept links of `raw`, resolved against `page_url`.
fn select_links(raw: &Vec<String>, page_url: &str) -> (r: Vec<String>)
    ensures
        strings_view(r@) == resolved_links(page_url@, first_links(strings_view(raw@))),
{
    let ghost sv = strings_view(raw@);
    let base_ok = url_parses(page_url);
    let mut out: Vec<String> = Vec::new();
    let mut taken: usize = 0;
    proof {
        assert(strings_view(out@) =~= Seq::<Seq<char>>::empty());
        assert(kept_links(sv.take(0)).take(0) =~= Seq::<Seq<char>>::empty());
    }
    for i in 0..raw.len()
        invariant
            sv == strings_view(raw@),
            base_ok == spec_url_parses(page_url@),
            taken == if kept_links(sv.take(i as int)).len() <= MAX_LINKS {
                kept_links(sv.take(i as int)).len()
            } else {
                MAX_LINKS as nat
            },
            strings_view(out@) == resolved_links(
                page_url@,
                kept_links(sv.take(i as int)).take(taken as int),
            ),
    {
        let h = &raw[i];
        let ghost k = kept_links(sv.take(i as int));
        proof {
            assert(sv.take(i + 1).drop_last() == sv.take(i as int));
            assert(sv.take(i + 1).last() == h@);
        }
        let keep = keep_link(h);
        if keep {
            proof {
                assert(kept_links(sv.take(i + 1)) == k.push(h@));
            }
            if taken < MAX_LINKS {
                proof {
                    assert(k.push(h@).take(taken + 1) =~= k.take(taken as int).push(h@));
                    lemma_resolved_push(page_url@, k.take(taken as int), h@);
                }
                taken += 1;
                if base_ok {
                    match url_join(page_url, h.as_str()) {
                        Some(u) => {
                            proof {
                                lemma_strings_view_push(out@, u);
                            }
                            out.push(u);
                        },
                        None => {},
                    }
                } else {
                    let c = h.clone();
                    proof {
                        lemma_strings_view_push(out@, c);
                    }
                    out.push(c);
                }
                proof {
                    assert(strings_view(out@) =~= resolved_links(
                        page_url@,
                        kept_links(sv.take(i + 1)).take(taken as int),
                    ));
                }
            } else {
                proof {
                    assert(k.push(h@).take(taken as int) =~= k.take(taken as int));
                }
            }
        } else {
            proof {
                assert(kept_links(sv.take(i + 1)) == k);
            }
        }
    }
    proof {
        assert(sv.take(raw.len() as int) == sv);
        let k = kept_links(sv);
        if k.len() <= MAX_LINKS {
            assert(k.take(k.len() as int) == k);
        }
    }
    out
}

/// The metadata, text and blocks of the document under `root`, fetched from
/// `page_url`.
pub fn analyze_document(root: &DomNode, page_url: &str) -> (r: (RenderedPage, Vec<FlowBlock>))
    ensures
        r.0@ == page_of(*root, page_url@),
        !raw_title(*root).contains('&') ==> r.0.title@ == raw_title(*root),
        blocks_view(r.1@) == flow(body_of(*root)),
{
    let raw_title = match find_first_element(root, "title") {
        Some(t) => collect_text(t),
        None => String::new(),
    };
    let title = decode_html_entities(raw_title.as_str());
    let text = match find_first_element(root, "body") {
        Some(b) => collect_visible_text(b),
        None => collect_visible_text(root),
    };
    let mut raw_links: Vec<String> = Vec::new();
    collect_hrefs(root, &mut raw_links);
    proof {
        assert(strings_view(Seq::<String>::empty()) =~= Seq::<Seq<char>>::empty());
        assert(Seq::<Seq<char>>::empty() + hrefs(*root) =~= hrefs(*root));
    }
    let links = select_links(&raw_links, page_url);
    let body = match find_first_element(root, "body") {
        Some(b) => b,
        None => root,
    };
    let blocks = extract_flow(body);
    let page = RenderedPage {
        url: page_url.to_owned(),
        title,
        text: collapse_ws(text.as_str()),
        links,
    };
    (page, blocks)
}

/// Parses `html` and reads its metadata, text and blocks (see
/// [`analyze_document`]). Parsing always succeeds.
pub fn analyze_page(html: &str, page_url: &str) -> (r: Result<(RenderedPage, Vec<FlowBlock>), String>)
    ensures
        r is Ok,
        r matches Ok((page, blocks)) ==> {
            &&& page@ == page_of(spec_parsed_document(html@), page_url@)
            &&& !raw_title(spec_parsed_document(html@)).contains('&') ==> page.title@ == raw_title(
                spec_parsed_document(html@),
            )
            &&& blocks_view(blocks@) == flow(body_of(spec_parsed_document(html@)))
        },
{
    match parse_html(html) {
        Ok(root) => {
            let r = analyze_document(&root, page_url);
            Ok(r)
        },
        Err(e) => Err(e),
    }
}

/// Parses `html` and reads the page's metadata and text. Parsing always
/// succeeds.
pub fn render_document(html: &str, page_url: &str) -> (r: Result<RenderedPage, String>)
    ensures
        r is Ok,
        r matches Ok(page) ==> {
            &&& page@ == page_of(spec_parsed_document(html@), page_url@)
            &&& !raw_title(spec_parsed_document(html@)).contains('&') ==> page.title@ == raw_title(
                spec_parsed_document(html@),
            )
        },
{
    match analyze_page(html, page_url) {
        Ok((page, _)) => Ok(page),
        Err(e) => Err(e),
    }
}

} // verus!
