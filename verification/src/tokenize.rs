//! The boundary to the external markdown tokenizer (`pulldown_cmark`): the
//! declarations Verus needs for its types, the conversion of its events
//! into the library's event vocabulary, and the one trusted entry point,
//! `tokenize`, whose result is named by the uninterpreted `events_of`.
//!
//! The event stream is assumed well formed, balanced and deterministic in
//! the input text; the translator's own contracts take it from there.
use vstd::prelude::*;

use crate::event::LinkKind;
use crate::event::MdEvent;
use crate::translate::balanced;

verus! {

#[verifier::external_type_specification]
#[verifier::external_body]
pub struct ExEvent<'a>(pulldown_cmark::Event<'a>);

#[verifier::external_type_specification]
#[verifier::external_body]
pub struct ExTag<'a>(pulldown_cmark::Tag<'a>);

#[verifier::external_type_specification]
#[verifier::external_body]
pub struct ExTagEnd(pulldown_cmark::TagEnd);

#[verifier::external_type_specification]
#[verifier::external_body]
pub struct ExLinkType(pulldown_cmark::LinkType);

/// Relies on the shape of `pulldown_cmark::LinkType`: one variant for each
/// way a link can be written; this maps each to the library's own kind.
#[verifier::external_body]
fn link_kind_of(lt: pulldown_cmark::LinkType) -> (k: LinkKind) {
    match lt {
        pulldown_cmark::LinkType::Inline => LinkKind::Inline,
        pulldown_cmark::LinkType::Reference => LinkKind::Reference,
        pulldown_cmark::LinkType::ReferenceUnknown => LinkKind::ReferenceUnknown,
        pulldown_cmark::LinkType::Collapsed => LinkKind::Collapsed,
        pulldown_cmark::LinkType::CollapsedUnknown => LinkKind::CollapsedUnknown,
        pulldown_cmark::LinkType::Shortcut => LinkKind::Shortcut,
        pulldown_cmark::LinkType::ShortcutUnknown => LinkKind::ShortcutUnknown,
        pulldown_cmark::LinkType::Autolink => LinkKind::Autolink,
        pulldown_cmark::LinkType::Email => LinkKind::Email,
        pulldown_cmark::LinkType::WikiLink { .. } => LinkKind::WikiLink,
    }
}

/// Relies on the shape of `pulldown_cmark::Tag`: maps each start tag the
/// translator handles to its event, moving the fields over; every other
/// construct becomes the ignored `Other`. Heading levels carry their
/// numeric value (`HeadingLevel` has discriminants 1 through 6).
#[verifier::external_body]
fn start_event_of(t: pulldown_cmark::Tag<'_>) -> (e: MdEvent) {
    match t {
        pulldown_cmark::Tag::Heading { level, .. } => MdEvent::HeadingStart(level as u8),
        pulldown_cmark::Tag::Paragraph => MdEvent::ParagraphStart,
        pulldown_cmark::Tag::Strong => MdEvent::StrongStart,
        pulldown_cmark::Tag::Emphasis => MdEvent::EmphasisStart,
        pulldown_cmark::Tag::CodeBlock(_) => MdEvent::CodeStart,
        pulldown_cmark::Tag::List(start) => MdEvent::ListStart(start),
        pulldown_cmark::Tag::Item => MdEvent::ItemStart,
        pulldown_cmark::Tag::Link { link_type, dest_url, title, id } =>
            MdEvent::LinkStart(link_kind_of(link_type), dest_url.to_string(), title.to_string(), id.to_string()),
        _ => MdEvent::Other,
    }
}

/// Relies on the shape of `pulldown_cmark::TagEnd`: the end tags matching
/// the start tags above; ends of unhandled constructs become `Other`.
#[verifier::external_body]
fn end_event_of(t: pulldown_cmark::TagEnd) -> (e: MdEvent) {
    match t {
        pulldown_cmark::TagEnd::Heading(_) => MdEvent::HeadingEnd,
        pulldown_cmark::TagEnd::Paragraph => MdEvent::ParagraphEnd,
        pulldown_cmark::TagEnd::Strong => MdEvent::StrongEnd,
        pulldown_cmark::TagEnd::Emphasis => MdEvent::EmphasisEnd,
        pulldown_cmark::TagEnd::CodeBlock => MdEvent::CodeEnd,
        pulldown_cmark::TagEnd::List(_) => MdEvent::ListEnd,
        pulldown_cmark::TagEnd::Item => MdEvent::ItemEnd,
        _ => MdEvent::Other,
    }
}

/// Relies on the shape of `pulldown_cmark::Event`: start and end tags go
/// through the two conversions above; every text-like leaf (plain text,
/// code span, raw or display markup, math) carries its payload over; the
/// remaining leaves (footnote references, rules, task markers) are ignored.
#[verifier::external_body]
fn event_of(ev: pulldown_cmark::Event<'_>) -> (e: MdEvent) {
    match ev {
        pulldown_cmark::Event::Start(t) => start_event_of(t),
        pulldown_cmark::Event::End(t) => end_event_of(t),
        pulldown_cmark::Event::Text(s)
        | pulldown_cmark::Event::Code(s)
        | pulldown_cmark::Event::InlineMath(s)
        | pulldown_cmark::Event::DisplayMath(s)
        | pulldown_cmark::Event::Html(s)
        | pulldown_cmark::Event::InlineHtml(s) => MdEvent::Text(s.to_string()),
        pulldown_cmark::Event::SoftBreak => MdEvent::SoftBreak,
        pulldown_cmark::Event::HardBreak => MdEvent::HardBreak,
        _ => MdEvent::Other,
    }
}

/// The event stream of a text: what the external tokenizer produces,
/// converted to the library's vocabulary. Uninterpreted: it is a function
/// of the input text alone, and nothing more is assumed of it.
pub uninterp spec fn events_of(s: Seq<char>) -> Seq<MdEvent>;

/// Relies on `pulldown_cmark::Parser` (wrapped in `TextMergeStream`, which
/// merges adjacent text events): tokenizing is deterministic, a pure
/// function of the input text, here named `events_of`; and the parser
/// documents that its start and end events are always balanced (a preorder
/// traversal of the document tree), so the converted stream is `balanced`
/// — the conversions above map starts and ends variant for variant.
#[verifier::external_body]
pub fn tokenize(input: &str) -> (r: Vec<MdEvent>)
    ensures
        r@ == events_of(input@),
        balanced(r@),
{
    pulldown_cmark::TextMergeStream::new(pulldown_cmark::Parser::new(input)).map(
        event_of,
    ).collect()
}

} // verus!
