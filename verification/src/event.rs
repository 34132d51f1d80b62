//! The structural event vocabulary the translator consumes: start/end
//! markers for the handled block and inline constructs, and leaf events.
//! An external tokenizer produces these from raw text.
use vstd::prelude::*;

verus! {

/// How a link was written in the source; decides how its destination is
/// formatted for display.
#[derive(Clone, Copy, Debug, PartialEq, Eq, Structural)]
pub enum LinkKind {
    /// `[text](url)`
    Inline,
    /// `[text][id]`
    Reference,
    /// A reference whose destination is not in the document.
    ReferenceUnknown,
    /// `[text][]`
    Collapsed,
    /// A collapsed link whose destination is not in the document.
    CollapsedUnknown,
    /// `[text]`
    Shortcut,
    /// A shortcut whose destination is not in the document.
    ShortcutUnknown,
    /// `<http://example.org>`
    Autolink,
    /// `<someone@example.org>`
    Email,
    /// `[[text]]`, with or without a pothole.
    WikiLink,
}

/// One structural markdown event. Constructs the translator leaves
/// unstyled and stateless (block quotes, tables, rules, footnotes and the
/// like) all arrive as `Other`.
#[derive(Debug)]
pub enum MdEvent {
    /// Start of a heading of the given level (1 through 6).
    HeadingStart(u8),
    HeadingEnd,
    ParagraphStart,
    ParagraphEnd,
    StrongStart,
    StrongEnd,
    EmphasisStart,
    EmphasisEnd,
    CodeStart,
    CodeEnd,
    /// Start of a list; the argument is the first item number of an
    /// ordered list, or `None` for an unordered one.
    ListStart(Option<u64>),
    ListEnd,
    ItemStart,
    ItemEnd,
    /// Start of a link: its kind, destination URL, title and reference id.
    LinkStart(LinkKind, String, String, String),
    /// An inline text-like leaf: plain text, a code span, raw markup or a
    /// math span — anything carrying a text payload.
    Text(String),
    SoftBreak,
    HardBreak,
    /// An event the translator ignores: no visual output, no state change.
    Other,
}

} // verus!
