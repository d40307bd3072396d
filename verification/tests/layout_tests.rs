use inner_browser::layout::{font_for, PAD_Y};
use inner_browser::text::split_lines_of;
use inner_browser::{heading_style, layout_content, measure_content_height, DrawOp, FlowBlock, LineStyle, LineBreaker};

fn lines(v: &[&str]) -> Vec<String> {
    v.iter().map(|s| s.to_string()).collect()
}

fn width_limited(mut b: LineBreaker, max: usize) -> Vec<String> {
    while let Some(trial) = b.pending() {
        b.answer(trial.chars().count() > max);
    }
    b.finish()
}

#[test]
fn heading_styles() {
    assert_eq!(heading_style(1), ("700 28px ui-sans-serif, system-ui, sans-serif", 32, 14));
    assert_eq!(heading_style(2), ("700 22px ui-sans-serif, system-ui, sans-serif", 26, 12));
    assert_eq!(heading_style(3), ("650 19px ui-sans-serif, system-ui, sans-serif", 24, 10));
    assert_eq!(heading_style(4), ("650 17px ui-sans-serif, system-ui, sans-serif", 22, 8));
    assert_eq!(heading_style(6), ("600 16px ui-sans-serif, system-ui, sans-serif", 22, 8));
    assert_eq!(font_for(LineStyle::Pre), "14px ui-monospace, SFMono-Regular, Menlo, monospace");
}

#[test]
fn flow_wraps_between_words() {
    let out = width_limited(LineBreaker::wrap_flow("the quick brown fox jumps", true), 10);
    assert_eq!(out, lines(&["the quick", "brown fox", "jumps"]));
}

#[test]
fn flow_keeps_empty_lines_and_overlong_words() {
    let out = width_limited(LineBreaker::wrap_flow("a\n\nextraordinarily b", true), 5);
    assert_eq!(out, lines(&["a", "", "extraordinarily", "b"]));
}

#[test]
fn flow_of_blank_text_falls_back_to_the_text() {
    assert_eq!(width_limited(LineBreaker::wrap_flow("   ", true), 5), lines(&["   "]));
    assert_eq!(width_limited(LineBreaker::wrap_flow("", true), 5), lines(&[""]));
}

#[test]
fn flow_without_word_wrapping_keeps_paragraphs() {
    assert_eq!(width_limited(LineBreaker::wrap_flow("a b c\nd", false), 1), lines(&["a b c", "d"]));
}

#[test]
fn pending_line_joins_with_a_space() {
    let mut b = LineBreaker::wrap_flow("ab cd", true);
    assert_eq!(b.pending(), Some("ab".to_string()));
    b.answer(false);
    assert_eq!(b.pending(), Some("ab cd".to_string()));
    b.answer(true);
    assert_eq!(b.pending(), None);
    assert_eq!(b.finish(), lines(&["ab", "cd"]));
}

#[test]
fn monospace_wraps_between_characters() {
    assert_eq!(width_limited(LineBreaker::wrap_monospace_line("abcdefg"), 3), lines(&["abc", "def", "g"]));
    assert_eq!(width_limited(LineBreaker::wrap_monospace_line(""), 3), lines(&[""]));
    assert_eq!(width_limited(LineBreaker::wrap_monospace_line(" a "), 9), lines(&[" a "]));
}

#[test]
fn empty_title_shows_placeholder() {
    assert_eq!(width_limited(LineBreaker::wrap_hard_break(""), 50), lines(&["(no title)"]));
    assert_eq!(width_limited(LineBreaker::wrap_hard_break("My page"), 3), lines(&["My", "page"]));
}

fn sample() -> (Vec<String>, Vec<FlowBlock>, Vec<Vec<String>>) {
    let title = lines(&["Title"]);
    let blocks = vec![
        FlowBlock::Paragraph { text: "p".to_string() },
        FlowBlock::Rule,
        FlowBlock::ListItem { marker: "• ".to_string(), text: "li".to_string() },
        FlowBlock::Pre { text: "x".to_string() },
        FlowBlock::Heading { level: 2, text: "h".to_string() },
    ];
    let block_lines = vec![lines(&["p1", "p2"]), vec![], lines(&["li"]), lines(&["a", "b", "c"]), lines(&["h"])];
    (title, blocks, block_lines)
}

#[test]
fn content_height_adds_up() {
    let (t, b, l) = sample();
    assert_eq!(measure_content_height(&t, &b, &l), Some(280));
    assert_eq!(measure_content_height(&vec![], &vec![], &vec![]), Some(18 + 14 + 18));
}

#[test]
fn layout_places_each_line() {
    let (t, b, l) = sample();
    let plan = layout_content(&t, &b, &l).unwrap();
    assert_eq!(plan.height, 280);
    let ys: Vec<u64> = plan
        .ops
        .iter()
        .map(|o| match o {
            DrawOp::Text { baseline, .. } => *baseline,
            DrawOp::Marker { baseline, .. } => *baseline,
            DrawOp::Rule { y } => *y,
        })
        .collect();
    assert_eq!(ys, vec![40, 76, 98, 114, 150, 150, 174, 194, 214, 250]);
    for y in ys {
        assert!(y <= plan.height - PAD_Y);
    }
    match &plan.ops[4] {
        DrawOp::Marker { text, .. } => assert_eq!(text, "• "),
        _ => panic!("marker expected"),
    }
    match &plan.ops[5] {
        DrawOp::Text { style, after_marker, text, .. } => {
            assert_eq!(*style, LineStyle::ListItem);
            assert!(*after_marker);
            assert_eq!(text, "li");
        }
        _ => panic!("list text expected"),
    }
}

#[test]
fn empty_heading_takes_no_room() {
    let b = vec![FlowBlock::Heading { level: 1, text: String::new() }];
    let plan = layout_content(&vec![], &b, &vec![lines(&["ignored"])]).unwrap();
    assert!(plan.ops.is_empty());
    assert_eq!(plan.height, 50);
}

#[test]
fn wrapping_keeps_every_word() {
    let text = "  Lorem ipsum\tdolor sit amet,\n\nconsectetur   adipiscing elit ";
    for max in [1, 4, 9, 15, 80] {
        let out = width_limited(LineBreaker::wrap_flow(text, true), max);
        let got: Vec<&str> = out.iter().flat_map(|l| l.split_whitespace()).collect();
        let want: Vec<&str> = text.split_whitespace().collect();
        assert_eq!(got, want);
    }
}

#[test]
fn monospace_wrapping_keeps_every_character() {
    let line = "fn main() { println!(\"hi\"); }";
    for max in [1, 5, 12, 100] {
        let out = width_limited(LineBreaker::wrap_monospace_line(line), max);
        assert_eq!(out.concat(), line);
        for l in &out {
            assert!(l.chars().count() <= max.max(1));
        }
    }
}

#[test]
fn appending_a_block_adds_its_height() {
    let (t, mut b, mut l) = sample();
    let h = measure_content_height(&t, &b, &l).unwrap();
    b.push(FlowBlock::Rule);
    l.push(vec![]);
    assert_eq!(measure_content_height(&t, &b, &l), Some(h + 20));
    b.push(FlowBlock::ListItem { marker: "• ".to_string(), text: "x".to_string() });
    l.push(lines(&["x"]));
    assert_eq!(measure_content_height(&t, &b, &l), Some(h + 20 + 26));
    b.push(FlowBlock::Heading { level: 3, text: String::new() });
    l.push(vec![]);
    assert_eq!(measure_content_height(&t, &b, &l), Some(h + 20 + 26));
}

#[test]
fn nonempty_text_wraps_to_at_least_one_line() {
    assert!(!width_limited(LineBreaker::wrap_flow(" \t ", true), 1).is_empty());
    assert_eq!(width_limited(LineBreaker::wrap_monospace_line("x"), 0), lines(&["x"]));
}

#[test]
fn unbroken_flow_keeps_the_lines_of_the_text() {
    let text = "one two three\n\n four  five \n";
    for max in [0, 3, 100] {
        let out = width_limited(LineBreaker::wrap_flow(text, false), max);
        assert_eq!(out, lines(&["one two three", "", " four  five ", ""]));
    }
}

#[test]
fn every_text_wraps_to_at_least_one_line() {
    assert_eq!(width_limited(LineBreaker::wrap_flow("", true), 0), lines(&[""]));
    assert_eq!(width_limited(LineBreaker::wrap_flow("", false), 0), lines(&[""]));
    let mut pre: Vec<String> = Vec::new();
    for raw in split_lines_of("") {
        pre.extend(width_limited(LineBreaker::wrap_monospace_line(&raw), 0));
    }
    assert_eq!(pre, lines(&[""]));
}

#[test]
fn lines_of_several_pieces_fit() {
    let text = "a bb ccc dddd eeeee ffffff ggggggg\nhhhhhhhhhhhh i";
    for max in [0, 2, 5, 9, 14] {
        for l in width_limited(LineBreaker::wrap_flow(text, true), max) {
            if l.split_whitespace().count() >= 2 {
                assert!(l.chars().count() <= max, "{l:?} at {max}");
            }
        }
        for l in width_limited(LineBreaker::wrap_monospace_line(text), max) {
            if l.chars().count() >= 2 {
                assert!(l.chars().count() <= max, "{l:?} at {max}");
            }
        }
    }
}

#[test]
fn lines_break_only_where_the_next_word_does_not_fit() {
    let out = width_limited(LineBreaker::wrap_flow("aa bb cc dd", true), 5);
    assert_eq!(out, lines(&["aa bb", "cc dd"]));
    let text = "x yy zzz x yy zzz x";
    for max in [1, 4, 6, 8] {
        let out = width_limited(LineBreaker::wrap_flow(text, true), max);
        for pair in out.windows(2) {
            let next = pair[1].split_whitespace().next().unwrap();
            assert!(pair[0].chars().count() + 1 + next.chars().count() > max);
        }
    }
}

#[test]
fn every_broken_block_but_an_empty_heading_takes_room() {
    let (t, mut b, mut l) = sample();
    let h = measure_content_height(&t, &b, &l).unwrap();
    b.push(FlowBlock::Pre { text: String::new() });
    l.push(width_limited(LineBreaker::wrap_monospace_line(""), 10));
    assert_eq!(measure_content_height(&t, &b, &l), Some(h + 30));
    b.push(FlowBlock::Paragraph { text: String::new() });
    l.push(width_limited(LineBreaker::wrap_flow("", true), 10));
    assert_eq!(measure_content_height(&t, &b, &l), Some(h + 30 + 32));
}
