use md_render::event::LinkKind;
use md_render::links::format_link;
use md_render::Markdown;

#[test]
fn inline_link_registered_and_selectable() {
    let md = Markdown::from_str("[text](http://x.com)");
    assert_eq!(md.link_count(), 1);
    assert_eq!(md.handle_input('0'), Some("(http://x.com)".to_string()));
    assert_eq!(md.handle_input('1'), None);
}

#[test]
fn identical_destinations_collapse() {
    let md = Markdown::from_str("[a](http://x.com) and [b](http://x.com)");
    assert_eq!(md.link_count(), 1);
}

#[test]
fn distinct_destinations_in_lexicographic_order() {
    let md = Markdown::from_str("[c](http://c.com) [a](http://a.com) [b](http://b.com)");
    assert_eq!(md.link_count(), 3);
    assert_eq!(md.handle_input('0'), Some("(http://a.com)".to_string()));
    assert_eq!(md.handle_input('1'), Some("(http://b.com)".to_string()));
    assert_eq!(md.handle_input('2'), Some("(http://c.com)".to_string()));
}

#[test]
fn empty_registry_selects_nothing() {
    let md = Markdown::from_str("no links here");
    assert_eq!(md.handle_input('0'), None);
}

#[test]
fn non_digit_selects_nothing() {
    let md = Markdown::from_str("[text](http://x.com)");
    assert_eq!(md.handle_input('x'), None);
    assert_eq!(md.handle_input(' '), None);
    assert_eq!(md.handle_input('/'), None);
    assert_eq!(md.handle_input(':'), None);
}

#[test]
fn reference_link_formats_with_id() {
    let md = Markdown::from_str("[foo][bar]\n\n[bar]: http://y.com\n");
    assert_eq!(md.handle_input('0'), Some("[bar]".to_string()));
}

#[test]
fn shortcut_link_formats_with_title() {
    let md = Markdown::from_str("[foo]\n\n[foo]: http://z.com \"T\"\n");
    assert_eq!(md.handle_input('0'), Some("[T]".to_string()));
}

#[test]
fn collapsed_link_formats_as_literal() {
    let md = Markdown::from_str("[foo][]\n\n[foo]: http://z.com\n");
    assert_eq!(md.handle_input('0'), Some("[collapsed]".to_string()));
}

#[test]
fn autolink_keeps_raw_url() {
    let md = Markdown::from_str("<http://a.com>");
    assert_eq!(md.handle_input('0'), Some("http://a.com".to_string()));
}

#[test]
fn email_autolink_keeps_destination() {
    let md = Markdown::from_str("<someone@example.org>");
    let got = md.handle_input('0').expect("one email link");
    assert!(got.contains("someone@example.org"));
}

#[test]
fn link_formatting_rules() {
    assert_eq!(format_link(LinkKind::Inline, "u", "t", "i"), "(u)");
    assert_eq!(format_link(LinkKind::Reference, "u", "t", "i"), "[i]");
    assert_eq!(format_link(LinkKind::Shortcut, "u", "t", "i"), "[t]");
    assert_eq!(format_link(LinkKind::ReferenceUnknown, "u", "t", "i"), "[unknown]");
    assert_eq!(format_link(LinkKind::Collapsed, "u", "t", "i"), "[collapsed]");
    assert_eq!(format_link(LinkKind::CollapsedUnknown, "u", "t", "i"), "[collapsed unknown]");
    assert_eq!(format_link(LinkKind::ShortcutUnknown, "u", "t", "i"), "[shortcut unknown]");
    assert_eq!(format_link(LinkKind::Autolink, "u", "t", "i"), "u");
    assert_eq!(format_link(LinkKind::Email, "u", "t", "i"), "u");
    assert_eq!(format_link(LinkKind::WikiLink, "u", "t", "i"), "[wiki]");
}

#[test]
fn selection_respects_registry_size() {
    let md = Markdown::from_str("[a](http://a.com) [b](http://b.com)");
    assert!(md.handle_input('1').is_some());
    assert_eq!(md.handle_input('2'), None);
    assert_eq!(md.handle_input('9'), None);
}
