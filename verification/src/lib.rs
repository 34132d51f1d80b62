//! A translator from markdown text to styled terminal lines.
//!
//! A `Markdown` document is parsed once, at construction: an external
//! tokenizer turns the text into a stream of structural events, and the
//! verified translator folds that stream into an ordered sequence of
//! styled lines while collecting a deduplicated, lexicographically ordered
//! registry of link destinations. A single digit key then selects an entry
//! of that registry.
use vstd::prelude::*;

pub mod chars;
pub mod event;
pub mod laws;
pub mod links;
pub mod text;
pub mod tokenize;
pub mod translate;

verus! {

use crate::links::LinkRegistry;
use crate::text::clone_lines;
use crate::text::lines_view;
use crate::text::Line;
use crate::text::LineModel;
use crate::tokenize::events_of;
use crate::tokenize::tokenize;
use crate::translate::fold_events;
use crate::translate::lemma_balanced_stream_ok;
use crate::translate::output_lines;
use crate::translate::translate;

/// The model of a parsed document: the raw input, the registry of
/// formatted link destinations in lexicographic order, and the parsed
/// lines. A document built by `from_str` always has parsed lines (the
/// tokenizer's streams are balanced); the absent case, answered by the
/// raw-input fallback, can arise only from a malformed explicit event
/// stream fed to the translator directly.
#[verifier::ext_equal]
pub ghost struct MarkdownModel {
    pub input: Seq<char>,
    pub links: Seq<Seq<char>>,
    pub parsed: Option<Seq<LineModel>>,
}

/// A markdown document: its raw text, its link registry, and its parsed
/// styled lines. Parsed exactly once, at construction; immutable after.
#[derive(Debug)]
pub struct Markdown {
    input: String,
    links: LinkRegistry,
    parsed_text: Option<Vec<Line>>,
}

impl View for Markdown {
    type V = MarkdownModel;

    closed spec fn view(&self) -> MarkdownModel {
        MarkdownModel {
            input: self.input@,
            links: self.links@,
            parsed: match self.parsed_text {
                Some(v) => Some(lines_view(v@)),
                None => None,
            },
        }
    }
}

/// The digit a key symbol selects with: `Some(0)` through `Some(9)` for
/// the ASCII digits, `None` for every other symbol.
pub open spec fn digit_of(c: char) -> Option<int> {
    if 48 <= c as u32 <= 57 {
        Some(c as u32 - 48)
    } else {
        None
    }
}

impl Markdown {
    /// The link registry stays strictly sorted; established at
    /// construction and never altered afterwards.
    pub closed spec fn wf(&self) -> bool {
        self.links.wf()
    }

    /// Parse a document. The tokenizer's event stream (`events_of`) is
    /// folded into lines and links. The tokenizer always yields a balanced
    /// stream, so parsing always completes and the parsed lines are always
    /// present.
    pub fn from_str(input: &str) -> (r: Markdown)
        ensures
            r.wf(),
            r@.input == input@,
            ({
                let s = fold_events(events_of(input@));
                &&& r@.links == s.links
                &&& r@.parsed == Some(output_lines(s))
            }),
    {
        let events = tokenize(input);
        proof {
            lemma_balanced_stream_ok(events@);
        }
        let t = translate(&events);
        let (parsed_text, links) = t.finish();
        Markdown { input: input.to_owned(), links, parsed_text }
    }

    /// Map a decoded key symbol to a link: an ASCII digit `d` selects the
    /// `d`-th entry of the registry in lexicographic order; any other
    /// symbol, or a digit beyond the registry's size, selects nothing.
    pub fn handle_input(&self, code: char) -> (r: Option<String>)
        requires
            self.wf(),
        ensures
            match digit_of(code) {
                Some(d) => {
                    &&& (d < self@.links.len() ==> (r matches Some(s) && s@ == self@.links[d]))
                    &&& (d >= self@.links.len() ==> r is None)
                },
                None => r is None,
            },
    {
        let u = code as u32;
        if u < 48 || u > 57 {
            return None;
        }
        let d = (u - 48) as usize;
        if d < self.links.len() {
            Some(self.links.get(d).clone())
        } else {
            None
        }
    }

    /// The number of registered link destinations.
    pub fn link_count(&self) -> (r: usize)
        ensures
            r == self@.links.len(),
    {
        self.links.len()
    }

    /// The parsed lines; if parsing did not complete, the raw input as a
    /// single unstyled line.
    pub fn get_text(&self) -> (r: Vec<Line>)
        ensures
            lines_view(r@) == match self@.parsed {
                Some(lines) => lines,
                None => seq![LineModel::raw(self@.input)],
            },
    {
        match &self.parsed_text {
            Some(v) => clone_lines(v),
            None => {
                let mut r: Vec<Line> = Vec::new();
                r.push(Line::raw(self.input.clone()));
                proof {
                    assert(lines_view(r@) =~= seq![LineModel::raw(self@.input)]);
                }
                r
            },
        }
    }
}

} // verus!
