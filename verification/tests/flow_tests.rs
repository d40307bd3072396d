use inner_browser::{extract_flow, parse_html, Attribute, DomNode, FlowBlock};

fn text(s: &str) -> DomNode {
    DomNode::Text { contents: s.to_string() }
}

fn elem(name: &str, children: Vec<DomNode>) -> DomNode {
    DomNode::Element { name: name.to_string(), attrs: Vec::<Attribute>::new(), children }
}

fn shown(blocks: &[FlowBlock]) -> Vec<String> {
    blocks.iter().map(|b| format!("{:?}", b)).collect()
}

#[test]
fn text_node_becomes_collapsed_paragraph() {
    let b = extract_flow(&elem("span", vec![text("  hello \n  world ")]));
    assert_eq!(shown(&b), vec![r#"Paragraph { text: "hello world" }"#]);
}

#[test]
fn blank_text_is_dropped() {
    assert!(extract_flow(&text(" \n\t ")).is_empty());
}

#[test]
fn hidden_elements_are_skipped() {
    for tag in ["script", "style", "noscript", "svg", "iframe"] {
        assert!(extract_flow(&elem(tag, vec![text("secret")])).is_empty());
    }
}

#[test]
fn br_and_hr() {
    let b = extract_flow(&elem("span", vec![elem("br", vec![]), elem("hr", vec![])]));
    assert_eq!(shown(&b), vec![r#"Paragraph { text: "\n" }"#, "Rule"]);
}

#[test]
fn unordered_list_items_are_bulleted() {
    let ul = elem(
        "ul",
        vec![elem("li", vec![text(" one ")]), text("loose"), elem("li", vec![text("  ")]), elem("li", vec![text("two")])],
    );
    let b = extract_flow(&ul);
    assert_eq!(
        shown(&b),
        vec![
            r#"ListItem { marker: "• ", text: "one" }"#,
            r#"Paragraph { text: "loose" }"#,
            r#"ListItem { marker: "• ", text: "two" }"#,
        ]
    );
}

#[test]
fn ordered_list_items_are_numbered() {
    let ol = elem(
        "ol",
        vec![
            elem("li", vec![text("a")]),
            elem("p", vec![text("between")]),
            elem("li", vec![text(" ")]),
            elem("li", vec![text("c")]),
        ],
    );
    let b = extract_flow(&ol);
    assert_eq!(
        shown(&b),
        vec![
            r#"ListItem { marker: "1. ", text: "a" }"#,
            r#"Paragraph { text: "between" }"#,
            r#"ListItem { marker: "3. ", text: "c" }"#,
        ]
    );
}

#[test]
fn lone_li_is_bulleted() {
    let b = extract_flow(&elem("li", vec![text("x"), elem("b", vec![text("y")])]));
    assert_eq!(shown(&b), vec![r#"ListItem { marker: "• ", text: "xy" }"#]);
}

#[test]
fn headings_keep_their_inline_text() {
    let b = extract_flow(&elem("div", vec![elem("h2", vec![text(" Big "), elem("script", vec![text("no")])]), elem("h6", vec![])]));
    assert_eq!(shown(&b), vec![r#"Heading { level: 2, text: " Big " }"#]);
    let b = extract_flow(&elem("h1", vec![text("t")]));
    assert_eq!(shown(&b), vec![r#"Heading { level: 1, text: "t" }"#]);
}

#[test]
fn pre_keeps_whitespace_and_breaks() {
    let b = extract_flow(&elem("pre", vec![text("  a  b"), elem("br", vec![text("c")])]));
    assert_eq!(shown(&b), vec![r#"Pre { text: "  a  b\nc" }"#]);
    assert!(extract_flow(&elem("pre", vec![text("   ")])).is_empty());
    let b = extract_flow(&elem("pre", vec![text(" \n ")]));
    assert_eq!(shown(&b), vec![r#"Pre { text: " \n " }"#]);
}

#[test]
fn block_without_structure_is_one_paragraph() {
    let p = elem("p", vec![text("  first   line "), elem("em", vec![text("more")]), text("\n  second ")]);
    let b = extract_flow(&p);
    assert_eq!(shown(&b), vec![r#"Paragraph { text: "first line more\nsecond" }"#]);
}

#[test]
fn block_with_structure_recurses() {
    let d = elem("div", vec![text("intro"), elem("p", vec![text("para")]), elem("br", vec![])]);
    let b = extract_flow(&d);
    assert_eq!(
        shown(&b),
        vec![r#"Paragraph { text: "intro" }"#, r#"Paragraph { text: "para" }"#, r#"Paragraph { text: "\n" }"#]
    );
}

#[test]
fn document_node_yields_nothing() {
    let d = DomNode::Document { children: vec![elem("p", vec![text("x")])] };
    assert!(extract_flow(&d).is_empty());
}

#[test]
fn no_block_is_empty() {
    let d = elem("div", vec![elem("p", vec![text("  ")]), elem("ul", vec![elem("li", vec![])]), elem("h3", vec![])]);
    for b in extract_flow(&d) {
        match b {
            FlowBlock::Heading { text, .. } | FlowBlock::Paragraph { text } | FlowBlock::Pre { text } => assert!(!text.is_empty()),
            FlowBlock::ListItem { text, .. } => assert!(!text.is_empty()),
            FlowBlock::Rule => {}
        }
    }
}

#[test]
fn parsed_document_flows() {
    let (_, b) = inner_browser::analyze_page(
        "<html><body><h1>Hi</h1><p>a  b</p><ul><li>x</li></ul></body></html>",
        "https://example.com/",
    )
    .unwrap();
    assert_eq!(
        shown(&b),
        vec![r#"Heading { level: 1, text: "Hi" }"#, r#"Paragraph { text: "a b" }"#, r#"ListItem { marker: "• ", text: "x" }"#]
    );
}

#[test]
fn parse_html_builds_a_document() {
    let root = parse_html("<p>x</p>").unwrap();
    assert!(matches!(root, DomNode::Document { .. }));
}

#[test]
fn extract_flow_inner_only_appends() {
    let mut out = vec![FlowBlock::Rule, FlowBlock::Paragraph { text: "kept".to_string() }];
    inner_browser::flow::extract_flow_inner(&elem("ul", vec![elem("li", vec![text("new")])]), &mut out);
    assert_eq!(
        shown(&out),
        vec!["Rule", r#"Paragraph { text: "kept" }"#, r#"ListItem { marker: "• ", text: "new" }"#]
    );
}

#[test]
fn levels_and_markers_are_well_formed() {
    let mut kids = Vec::new();
    for h in ["h1", "h2", "h3", "h4", "h5", "h6"] {
        kids.push(elem(h, vec![text("t")]));
    }
    kids.push(elem("ol", vec![elem("li", vec![text("a")]), elem("li", vec![text("b")])]));
    kids.push(elem("ul", vec![elem("li", vec![text("c")])]));
    let blocks = extract_flow(&elem("section", kids));
    let mut levels = Vec::new();
    let mut markers = Vec::new();
    for b in &blocks {
        match b {
            FlowBlock::Heading { level, .. } => levels.push(*level),
            FlowBlock::ListItem { marker, .. } => markers.push(marker.clone()),
            _ => {}
        }
    }
    assert_eq!(levels, vec![1, 2, 3, 4, 5, 6]);
    assert_eq!(markers, vec!["1. ", "2. ", "• "]);
}

#[test]
fn parse_html_is_the_tree_the_page_is_read_from() {
    let html = "<title>T</title><p>x <a href='y'>l</a></p>";
    let root = parse_html(html).unwrap();
    let (from_tree, blocks_from_tree) = inner_browser::analyze_document(&root, "https://e.example/");
    let (page, blocks) = inner_browser::analyze_page(html, "https://e.example/").unwrap();
    assert_eq!(page.title, from_tree.title);
    assert_eq!(page.text, from_tree.text);
    assert_eq!(page.links, from_tree.links);
    assert_eq!(shown(&blocks), shown(&blocks_from_tree));
    assert_eq!(page.links, vec!["https://e.example/y".to_string()]);
}
