use inner_browser::{analyze_document, render_document, Attribute, DomNode};

fn text(s: &str) -> DomNode {
    DomNode::Text { contents: s.to_string() }
}

fn elem(name: &str, children: Vec<DomNode>) -> DomNode {
    DomNode::Element { name: name.to_string(), attrs: Vec::new(), children }
}

fn link(href: &str) -> DomNode {
    DomNode::Element {
        name: "a".to_string(),
        attrs: vec![Attribute { name: "href".to_string(), value: href.to_string() }],
        children: vec![text("l")],
    }
}

#[test]
fn title_text_and_links_from_html() {
    let html = "<html><head><title>A &amp;amp; B</title><style>p{}</style></head>\
                <body><p>Hello   <b>world</b></p><script>var x;</script>\
                <a href=\"next.html\">n</a><a href=\"#top\">t</a><a href=\"javascript:void(0)\">j</a>\
                </body></html>";
    let page = render_document(html, "https://example.com/dir/page.html").unwrap();
    assert_eq!(page.url, "https://example.com/dir/page.html");
    assert_eq!(page.title, "A & B");
    assert_eq!(page.text, "Hello world n t j");
    assert_eq!(page.links, vec!["https://example.com/dir/next.html".to_string()]);
}

#[test]
fn links_stay_raw_when_the_page_url_does_not_parse() {
    let root = DomNode::Document { children: vec![elem("body", vec![link("x.html"), link("#a"), link("/y")])] };
    let (page, _) = analyze_document(&root, "not a url");
    assert_eq!(page.links, vec!["x.html".to_string(), "/y".to_string()]);
}

#[test]
fn links_that_do_not_join_are_dropped() {
    let root = DomNode::Document { children: vec![link("http://[::1"), link("ok")] };
    let (page, _) = analyze_document(&root, "https://a.example/");
    assert_eq!(page.links, vec!["https://a.example/ok".to_string()]);
}

#[test]
fn at_most_one_hundred_links() {
    let mut kids = Vec::new();
    for i in 0..150 {
        kids.push(link("#skip"));
        kids.push(link(&format!("p{i}")));
    }
    let root = DomNode::Document { children: kids };
    let (page, _) = analyze_document(&root, "https://a.example/");
    assert_eq!(page.links.len(), 100);
    assert_eq!(page.links[0], "https://a.example/p0");
    assert_eq!(page.links[99], "https://a.example/p99");
}

#[test]
fn first_title_wins_and_missing_title_is_empty() {
    let root = DomNode::Document {
        children: vec![elem("title", vec![text("One"), elem("i", vec![text("!")])]), elem("title", vec![text("Two")])],
    };
    let (page, _) = analyze_document(&root, "u");
    assert_eq!(page.title, "One!");
    let (page, _) = analyze_document(&DomNode::Document { children: vec![] }, "u");
    assert_eq!(page.title, "");
}

#[test]
fn text_without_body_uses_the_whole_document() {
    let root = DomNode::Document {
        children: vec![elem("div", vec![text(" a "), text(""), elem("noscript", vec![text("n")]), text("b")])],
    };
    let (page, blocks) = analyze_document(&root, "u");
    assert_eq!(page.text, "a b");
    assert!(blocks.is_empty());
}

#[test]
fn blocks_come_from_the_body() {
    let root = DomNode::Document {
        children: vec![elem("html", vec![elem("head", vec![elem("title", vec![text("T")])]), elem("body", vec![elem("p", vec![text("x")])])])],
    };
    let (page, blocks) = analyze_document(&root, "u");
    assert_eq!(page.text, "x");
    assert_eq!(blocks.len(), 1);
}
