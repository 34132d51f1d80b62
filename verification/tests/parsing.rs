use md_render::event::MdEvent;
use md_render::text::Line;
use md_render::translate::translate;
use md_render::Markdown;

fn line_text(l: &Line) -> String {
    let mut s = String::new();
    for sp in &l.spans {
        s.push_str(&sp.text);
    }
    s
}

#[test]
fn plain_text_single_line() {
    let md = Markdown::from_str("hello world");
    let lines = md.get_text();
    assert_eq!(lines.len(), 1);
    assert_eq!(lines[0].spans.len(), 1);
    assert_eq!(lines[0].spans[0].text, "hello world");
    assert!(!lines[0].spans[0].style.bold);
    assert!(!lines[0].spans[0].style.italic);
    assert!(!lines[0].spans[0].style.colored);
    assert!(!lines[0].style.bold && !lines[0].style.italic && !lines[0].style.colored);
}

#[test]
fn heading_level_one_bold_then_blank() {
    let md = Markdown::from_str("# X\n\ntail");
    let lines = md.get_text();
    assert_eq!(lines.len(), 3);
    assert!(lines[0].style.bold);
    assert!(!lines[0].style.italic && !lines[0].style.colored);
    assert_eq!(line_text(&lines[0]), "X");
    assert!(lines[1].spans.is_empty());
    assert_eq!(line_text(&lines[2]), "tail");
}

#[test]
fn heading_levels_two_and_deeper() {
    let md2 = Markdown::from_str("## X");
    let l2 = md2.get_text();
    assert_eq!(l2.len(), 2);
    assert!(l2[0].style.italic && !l2[0].style.bold && !l2[0].style.colored);
    assert!(l2[1].spans.is_empty());
    let md3 = Markdown::from_str("### X");
    let l3 = md3.get_text();
    assert_eq!(l3.len(), 2);
    assert!(l3[0].style.colored && !l3[0].style.bold && !l3[0].style.italic);
    let md6 = Markdown::from_str("###### X");
    let l6 = md6.get_text();
    assert_eq!(l6.len(), 2);
    assert!(l6[0].style.colored && !l6[0].style.bold && !l6[0].style.italic);
}

#[test]
fn heading_alone_keeps_its_blank_separator() {
    let md = Markdown::from_str("# X");
    let lines = md.get_text();
    assert_eq!(lines.len(), 2);
    assert!(lines[0].style.bold);
    assert_eq!(line_text(&lines[0]), "X");
    assert!(lines[1].spans.is_empty());
    assert!(lines[1].is_blank());
}

#[test]
fn nested_emphasis_accumulates_bold_and_italic() {
    let md = Markdown::from_str("**_x_**");
    let lines = md.get_text();
    assert_eq!(lines.len(), 1);
    assert_eq!(lines[0].spans.len(), 1);
    assert_eq!(lines[0].spans[0].text, "x");
    assert!(lines[0].spans[0].style.bold);
    assert!(lines[0].spans[0].style.italic);
}

#[test]
fn hello_world_scenario() {
    let md = Markdown::from_str("# Hello\n\nWorld");
    let lines = md.get_text();
    assert_eq!(lines.len(), 3);
    assert_eq!(line_text(&lines[0]), "Hello");
    assert!(lines[0].style.bold);
    assert!(lines[1].spans.is_empty());
    assert_eq!(line_text(&lines[2]), "World");
    assert!(!lines[2].style.bold);
}

#[test]
fn hard_break_splits_without_blank() {
    let md = Markdown::from_str("a\\\nb");
    let lines = md.get_text();
    assert_eq!(lines.len(), 2);
    assert_eq!(line_text(&lines[0]), "a");
    assert_eq!(line_text(&lines[1]), "b");
}

#[test]
fn soft_break_renders_as_space() {
    let md = Markdown::from_str("a\nb");
    let lines = md.get_text();
    assert_eq!(lines.len(), 1);
    assert_eq!(line_text(&lines[0]), "a b");
}

#[test]
fn ordered_list_numbers_sequentially() {
    let md = Markdown::from_str("1. a\n2. b\n3. c");
    let lines = md.get_text();
    assert_eq!(lines.len(), 3);
    assert_eq!(line_text(&lines[0]), "1. a");
    assert_eq!(line_text(&lines[1]), "2. b");
    assert_eq!(line_text(&lines[2]), "3. c");
}

#[test]
fn ordered_list_ignores_source_start_numbers() {
    let md = Markdown::from_str("7. a\n9. b");
    let lines = md.get_text();
    assert_eq!(line_text(&lines[0]), "1. a");
    assert_eq!(line_text(&lines[1]), "2. b");
}

#[test]
fn nested_list_indents_and_restarts_numbering() {
    let md = Markdown::from_str("1. a\n2. b\n   1. c\n");
    let lines = md.get_text();
    assert_eq!(line_text(&lines[0]), "1. a");
    assert_eq!(line_text(&lines[1]), "2. b");
    assert_eq!(line_text(&lines[2]), "  1. c");
}

#[test]
fn unordered_list_markers() {
    let md = Markdown::from_str("* a\n* b");
    let lines = md.get_text();
    assert_eq!(line_text(&lines[0]), "* a");
    assert_eq!(line_text(&lines[1]), "* b");
}

#[test]
fn code_block_text_kept_unstyled() {
    let md = Markdown::from_str("```\ncode\n```");
    let lines = md.get_text();
    assert_eq!(lines.len(), 1);
    assert_eq!(line_text(&lines[0]), "code\n");
    assert!(!lines[0].spans[0].style.bold);
    assert!(!lines[0].spans[0].style.italic);
}

#[test]
fn blockquote_degrades_to_unstyled_text() {
    let md = Markdown::from_str("> quoted");
    let lines = md.get_text();
    assert_eq!(lines.len(), 1);
    assert_eq!(line_text(&lines[0]), "quoted");
    assert!(!lines[0].spans[0].style.bold && !lines[0].spans[0].style.italic);
}

#[test]
fn thematic_break_ignored() {
    let md = Markdown::from_str("a\n\n---\n\nb");
    let lines = md.get_text();
    let texts: Vec<String> = lines.iter().map(line_text).collect();
    assert_eq!(texts, vec!["a".to_string(), "".to_string(), "b".to_string()]);
}

#[test]
fn malformed_event_stream_falls_back_to_raw() {
    let events = vec![MdEvent::StrongEnd];
    let t = translate(&events);
    let (parsed, links) = t.finish();
    assert!(parsed.is_none());
    assert_eq!(links.len(), 0);
}

#[test]
fn event_stream_numbering_matches_markers() {
    let events = vec![
        MdEvent::ListStart(Some(5)),
        MdEvent::ItemStart,
        MdEvent::Text("x".to_string()),
        MdEvent::ItemEnd,
        MdEvent::ItemStart,
        MdEvent::Text("y".to_string()),
        MdEvent::ItemEnd,
        MdEvent::ListEnd,
    ];
    let t = translate(&events);
    let (parsed, _links) = t.finish();
    let lines = parsed.expect("balanced stream");
    assert_eq!(line_text(&lines[0]), "1. x");
    assert_eq!(line_text(&lines[1]), "2. y");
}
