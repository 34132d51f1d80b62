//! Styled text fragments: the output vocabulary of the translator.
//!
//! A `Line` is an ordered sequence of `Span`s plus a line-level style;
//! a `Span` is a text fragment with its own style attributes.
use vstd::prelude::*;

verus! {

/// Style attributes a fragment or a line can carry: bold, italic, or a
/// foreground colour (used for deep headings). All off means plain text.
#[derive(Clone, Copy, Debug, PartialEq, Eq, Structural)]
pub struct TextStyle {
    pub bold: bool,
    pub italic: bool,
    pub colored: bool,
}

impl TextStyle {
    /// The style with every attribute off.
    pub open spec fn plain_spec() -> TextStyle {
        TextStyle { bold: false, italic: false, colored: false }
    }

    pub fn plain() -> (r: TextStyle)
        ensures
            r == TextStyle::plain_spec(),
    {
        TextStyle { bold: false, italic: false, colored: false }
    }

    pub open spec fn is_plain(self) -> bool {
        self == TextStyle::plain_spec()
    }
}

/// Mathematical model of a span: the fragment's characters and its style.
#[verifier::ext_equal]
pub ghost struct SpanModel {
    pub text: Seq<char>,
    pub style: TextStyle,
}

/// A styled text fragment.
#[derive(Debug)]
pub struct Span {
    pub text: String,
    pub style: TextStyle,
}

impl View for Span {
    type V = SpanModel;

    open spec fn view(&self) -> SpanModel {
        SpanModel { text: self.text@, style: self.style }
    }
}

impl Clone for Span {
    fn clone(&self) -> (r: Self)
        ensures
            r@ == self@,
    {
        Span { text: self.text.clone(), style: self.style }
    }
}

impl Span {
    pub fn new(text: String, style: TextStyle) -> (r: Span)
        ensures
            r@ == (SpanModel { text: text@, style: style }),
    {
        Span { text, style }
    }
}

/// Mathematical model of a line: its line-level style and its spans.
#[verifier::ext_equal]
pub ghost struct LineModel {
    pub style: TextStyle,
    pub spans: Seq<SpanModel>,
}

impl LineModel {
    /// The empty unstyled line, used as a blank separator.
    pub open spec fn blank() -> LineModel {
        LineModel { style: TextStyle::plain_spec(), spans: Seq::empty() }
    }

    /// A blank line: no spans and no line-level style.
    pub open spec fn is_blank(self) -> bool {
        self.spans.len() == 0 && self.style.is_plain()
    }

    /// A single unstyled line holding the given text as one unstyled span.
    pub open spec fn raw(text: Seq<char>) -> LineModel {
        LineModel {
            style: TextStyle::plain_spec(),
            spans: seq![SpanModel { text: text, style: TextStyle::plain_spec() }],
        }
    }
}

/// A renderable row: a line-level style and an ordered sequence of spans.
#[derive(Debug)]
pub struct Line {
    pub style: TextStyle,
    pub spans: Vec<Span>,
}

impl View for Line {
    type V = LineModel;

    open spec fn view(&self) -> LineModel {
        LineModel { style: self.style, spans: self.spans@.map(|i: int, s: Span| s@) }
    }
}

impl Clone for Line {
    fn clone(&self) -> (r: Self)
        ensures
            r@ == self@,
    {
        let mut spans: Vec<Span> = Vec::new();
        let mut i: usize = 0;
        while i < self.spans.len()
            invariant
                i <= self.spans.len(),
                spans@.len() == i,
                forall|k: int| 0 <= k < i ==> spans@[k]@ == self.spans@[k]@,
            decreases self.spans.len() - i,
        {
            spans.push(self.spans[i].clone());
            i = i + 1;
        }
        let r = Line { style: self.style, spans };
        proof {
            assert(r@.spans =~= self@.spans);
            assert(r@ =~= self@);
        }
        r
    }
}

impl Line {
    /// A fresh line with no spans and no style.
    pub fn empty() -> (r: Line)
        ensures
            r@ == LineModel::blank(),
    {
        let r = Line { style: TextStyle::plain(), spans: Vec::new() };
        proof {
            assert(r@ =~= LineModel::blank());
        }
        r
    }

    /// A line pre-styled with the given style and no spans yet.
    pub fn styled(style: TextStyle) -> (r: Line)
        ensures
            r@ == (LineModel { style: style, spans: Seq::empty() }),
    {
        let r = Line { style, spans: Vec::new() };
        proof {
            assert(r@ =~= LineModel { style: style, spans: Seq::<SpanModel>::empty() });
        }
        r
    }

    /// Append one span to the line.
    pub fn push_span(&mut self, s: Span)
        ensures
            final(self)@ == (LineModel {
                style: old(self)@.style,
                spans: old(self)@.spans.push(s@),
            }),
    {
        let ghost sv = s@;
        self.spans.push(s);
        proof {
            assert(self@.spans =~= old(self)@.spans.push(sv));
            assert(self@ =~= LineModel { style: old(self)@.style, spans: old(self)@.spans.push(sv) });
        }
    }

    /// Whether the line holds no spans yet (its style may still be set).
    pub fn has_spans(&self) -> (r: bool)
        ensures
            r == (self@.spans.len() > 0),
    {
        self.spans.len() > 0
    }

    /// Whether the line is a blank separator: no spans and no style.
    pub fn is_blank(&self) -> (r: bool)
        ensures
            r == self@.is_blank(),
    {
        self.spans.len() == 0 && (self.style.bold == false) && (self.style.italic == false) && (
        self.style.colored == false)
    }
}

impl Line {
    /// A single unstyled line holding the whole text as one unstyled span.
    pub fn raw(text: String) -> (r: Line)
        ensures
            r@ == LineModel::raw(text@),
    {
        let mut spans: Vec<Span> = Vec::new();
        spans.push(Span::new(text, TextStyle::plain()));
        let r = Line { style: TextStyle::plain(), spans };
        proof {
            assert(r@.spans =~= LineModel::raw(r@.spans[0].text).spans);
            assert(r@ =~= LineModel::raw(r@.spans[0].text));
        }
        r
    }
}

/// The models of a vector of lines, in order.
pub open spec fn lines_view(v: Seq<Line>) -> Seq<LineModel> {
    v.map(|i: int, l: Line| l@)
}

/// Clone a vector of lines, model for model.
pub fn clone_lines(v: &Vec<Line>) -> (r: Vec<Line>)
    ensures
        lines_view(r@) == lines_view(v@),
{
    let mut r: Vec<Line> = Vec::new();
    let mut i: usize = 0;
    while i < v.len()
        invariant
            i <= v.len(),
            r@.len() == i,
            forall|k: int| 0 <= k < i ==> r@[k]@ == v@[k]@,
        decreases v.len() - i,
    {
        r.push(v[i].clone());
        i = i + 1;
    }
    proof {
        assert(lines_view(r@) =~= lines_view(v@));
    }
    r
}

} // verus!
