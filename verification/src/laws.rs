//! General laws of the translator, proved over the fold for every text:
//! what a plain paragraph, a heading, nested emphasis, a hard break and an
//! ordered list become. The registry's laws (dedup, order) live with the
//! registry itself.
use vstd::prelude::*;

use crate::chars::dec_str;
use crate::event::MdEvent;
use crate::text::LineModel;
use crate::text::SpanModel;
use crate::text::TextStyle;
use crate::translate::fold_events;
use crate::translate::heading_style;
use crate::translate::count_lists;
use crate::translate::init_state;
use crate::translate::innermost_list;
use crate::translate::item_prefix;
use crate::translate::output_lines;
use crate::translate::spaces;
use crate::translate::step;
use crate::translate::Context;

verus! {

/// Fold a stream one event at a time, from an explicit prefix list.
proof fn lemma_fold_snoc(prefix: Seq<MdEvent>, e: MdEvent)
    ensures
        fold_events(prefix.push(e)) == step(fold_events(prefix), e),
{
    assert(prefix.push(e).drop_last() =~= prefix);
    assert(prefix.push(e).last() == e);
}

/// The empty stack tail below `Normal`.
proof fn lemma_base_style()
    ensures
        crate::translate::stack_style(seq![Context::Normal]) == TextStyle::plain_spec(),
{
    assert(seq![Context::Normal].drop_last() =~= Seq::<Context>::empty());
    assert(crate::translate::stack_style(Seq::<Context>::empty()) == TextStyle::plain_spec());
}

/// Text with no markup becomes exactly one line holding one unstyled span
/// equal to the text, with no trailing blank line: the fold of the event
/// stream of a bare paragraph.
pub proof fn lemma_plain_paragraph(t: String)
    ensures
        ({
            let s = fold_events(
                seq![MdEvent::ParagraphStart, MdEvent::Text(t), MdEvent::ParagraphEnd],
            );
            &&& s.ok
            &&& output_lines(s) == seq![
                LineModel {
                    style: TextStyle::plain_spec(),
                    spans: seq![SpanModel { text: t@, style: TextStyle::plain_spec() }],
                },
            ]
        }),
{
    let e0 = MdEvent::ParagraphStart;
    let e1 = MdEvent::Text(t);
    let e2 = MdEvent::ParagraphEnd;
    let p0 = Seq::<MdEvent>::empty();
    lemma_fold_snoc(p0, e0);
    lemma_fold_snoc(p0.push(e0), e1);
    lemma_fold_snoc(p0.push(e0).push(e1), e2);
    assert(p0.push(e0).push(e1).push(e2) =~= seq![e0, e1, e2]);
    lemma_base_style();
    let s0 = init_state();
    let s1 = step(s0, e0);
    assert(s1 == s0);
    let s2 = step(s1, e1);
    let s3 = step(s2, e2);
    let line = LineModel {
        style: TextStyle::plain_spec(),
        spans: seq![SpanModel { text: t@, style: TextStyle::plain_spec() }],
    };
    assert(s2.current =~= line);
    assert(s3.lines =~= seq![line, LineModel::blank()]);
    assert(s3.sep == 1);
    assert(s3.lines.take(1) =~= seq![line]);
    assert(output_lines(s3) =~= seq![line]);
}

/// A heading becomes one line carrying the heading's line-level style —
/// bold for level 1, italic for level 2, coloured for deeper levels — with
/// the heading text as one unstyled span, followed immediately by one
/// blank separator line, which stays in the finished output even when the
/// heading ends the document.
pub proof fn lemma_heading(level: u8, t: String)
    ensures
        ({
            let s = fold_events(
                seq![MdEvent::HeadingStart(level), MdEvent::Text(t), MdEvent::HeadingEnd],
            );
            &&& s.ok
            &&& s.lines == seq![
                LineModel {
                    style: heading_style(level),
                    spans: seq![SpanModel { text: t@, style: TextStyle::plain_spec() }],
                },
                LineModel::blank(),
            ]
            &&& output_lines(s) == s.lines
            &&& (level == 1 ==> s.lines[0].style == (TextStyle {
                bold: true,
                italic: false,
                colored: false,
            }))
            &&& (level == 2 ==> s.lines[0].style == (TextStyle {
                bold: false,
                italic: true,
                colored: false,
            }))
            &&& (level >= 3 ==> s.lines[0].style == (TextStyle {
                bold: false,
                italic: false,
                colored: true,
            }))
        }),
{
    let e0 = MdEvent::HeadingStart(level);
    let e1 = MdEvent::Text(t);
    let e2 = MdEvent::HeadingEnd;
    let p0 = Seq::<MdEvent>::empty();
    lemma_fold_snoc(p0, e0);
    lemma_fold_snoc(p0.push(e0), e1);
    lemma_fold_snoc(p0.push(e0).push(e1), e2);
    assert(p0.push(e0).push(e1).push(e2) =~= seq![e0, e1, e2]);
    let s0 = init_state();
    let s1 = step(s0, e0);
    assert(s1.stack =~= seq![Context::Normal, Context::Heading(level)]);
    let s2 = step(s1, e1);
    assert(s2.stack.last() is Heading);
    let line = LineModel {
        style: heading_style(level),
        spans: seq![SpanModel { text: t@, style: TextStyle::plain_spec() }],
    };
    assert(s2.current =~= line);
    let s3 = step(s2, e2);
    assert(s3.lines =~= seq![line, LineModel::blank()]);
    assert(s3.sep == 0);
    assert(s3.lines.take(2) =~= s3.lines);
    assert(output_lines(s3) == s3.lines);
}

/// Emphasis nested inside strong accumulates both modifiers: the text's
/// span is both bold and italic.
pub proof fn lemma_nested_emphasis(t: String)
    ensures
        ({
            let s = fold_events(
                seq![
                    MdEvent::ParagraphStart,
                    MdEvent::StrongStart,
                    MdEvent::EmphasisStart,
                    MdEvent::Text(t),
                    MdEvent::EmphasisEnd,
                    MdEvent::StrongEnd,
                    MdEvent::ParagraphEnd,
                ],
            );
            &&& s.ok
            &&& output_lines(s) == seq![
                LineModel {
                    style: TextStyle::plain_spec(),
                    spans: seq![
                        SpanModel {
                            text: t@,
                            style: TextStyle { bold: true, italic: true, colored: false },
                        },
                    ],
                },
            ]
        }),
{
    let e0 = MdEvent::ParagraphStart;
    let e1 = MdEvent::StrongStart;
    let e2 = MdEvent::EmphasisStart;
    let e3 = MdEvent::Text(t);
    let e4 = MdEvent::EmphasisEnd;
    let e5 = MdEvent::StrongEnd;
    let e6 = MdEvent::ParagraphEnd;
    let p0 = Seq::<MdEvent>::empty();
    lemma_fold_snoc(p0, e0);
    let p1 = p0.push(e0);
    lemma_fold_snoc(p1, e1);
    let p2 = p1.push(e1);
    lemma_fold_snoc(p2, e2);
    let p3 = p2.push(e2);
    lemma_fold_snoc(p3, e3);
    let p4 = p3.push(e3);
    lemma_fold_snoc(p4, e4);
    let p5 = p4.push(e4);
    lemma_fold_snoc(p5, e5);
    let p6 = p5.push(e5);
    lemma_fold_snoc(p6, e6);
    assert(p6.push(e6) =~= seq![e0, e1, e2, e3, e4, e5, e6]);
    lemma_base_style();
    let s0 = init_state();
    let s1 = step(s0, e0);
    assert(s1 == s0);
    let s2 = step(s1, e1);
    assert(s2.stack =~= seq![Context::Normal, Context::Strong]);
    let s3 = step(s2, e2);
    assert(s3.stack =~= seq![Context::Normal, Context::Strong, Context::Emphasis]);
    assert(s3.stack.drop_last() =~= s2.stack);
    assert(s2.stack.drop_last() =~= seq![Context::Normal]);
    let s4 = step(s3, e3);
    let bi = TextStyle { bold: true, italic: true, colored: false };
    assert(crate::translate::stack_style(s3.stack) == bi);
    let line = LineModel {
        style: TextStyle::plain_spec(),
        spans: seq![SpanModel { text: t@, style: bi }],
    };
    assert(s4.current =~= line);
    let s5 = step(s4, e4);
    let s6 = step(s5, e5);
    let s7 = step(s6, e6);
    assert(s7.lines =~= seq![line, LineModel::blank()]);
    assert(s7.sep == 1);
    assert(s7.lines.take(1) =~= seq![line]);
    assert(output_lines(s7) =~= seq![line]);
}

/// An ordered list numbers its items strictly sequentially from 1,
/// whatever start number the source list carried: the three items' lines
/// begin with the markers for 1, 2 and 3.
pub proof fn lemma_ordered_list_numbering(start: Option<u64>, a: String, b: String, c: String)
    requires
        start is Some,
    ensures
        ({
            let s = fold_events(
                seq![
                    MdEvent::ListStart(start),
                    MdEvent::ItemStart,
                    MdEvent::Text(a),
                    MdEvent::ItemEnd,
                    MdEvent::ItemStart,
                    MdEvent::Text(b),
                    MdEvent::ItemEnd,
                    MdEvent::ItemStart,
                    MdEvent::Text(c),
                    MdEvent::ItemEnd,
                    MdEvent::ListEnd,
                ],
            );
            &&& s.ok
            &&& output_lines(s) == seq![
                item_line(item_prefix(true, 0, 1), a@),
                item_line(item_prefix(true, 0, 2), b@),
                item_line(item_prefix(true, 0, 3), c@),
            ]
        }),
{
    let e0 = MdEvent::ListStart(start);
    let e1 = MdEvent::ItemStart;
    let e2 = MdEvent::Text(a);
    let e3 = MdEvent::ItemEnd;
    let e4 = MdEvent::ItemStart;
    let e5 = MdEvent::Text(b);
    let e6 = MdEvent::ItemEnd;
    let e7 = MdEvent::ItemStart;
    let e8 = MdEvent::Text(c);
    let e9 = MdEvent::ItemEnd;
    let e10 = MdEvent::ListEnd;
    let p0 = Seq::<MdEvent>::empty();
    lemma_fold_snoc(p0, e0);
    let p1 = p0.push(e0);
    lemma_fold_snoc(p1, e1);
    let p2 = p1.push(e1);
    lemma_fold_snoc(p2, e2);
    let p3 = p2.push(e2);
    lemma_fold_snoc(p3, e3);
    let p4 = p3.push(e3);
    lemma_fold_snoc(p4, e4);
    let p5 = p4.push(e4);
    lemma_fold_snoc(p5, e5);
    let p6 = p5.push(e5);
    lemma_fold_snoc(p6, e6);
    let p7 = p6.push(e6);
    lemma_fold_snoc(p7, e7);
    let p8 = p7.push(e7);
    lemma_fold_snoc(p8, e8);
    let p9 = p8.push(e8);
    lemma_fold_snoc(p9, e9);
    let p10 = p9.push(e9);
    lemma_fold_snoc(p10, e10);
    assert(p10.push(e10) =~= seq![e0, e1, e2, e3, e4, e5, e6, e7, e8, e9, e10]);
    lemma_base_style();
    let s0 = init_state();
    let s1 = step(s0, e0);
    assert(count_lists(seq![Context::Normal]) == 0) by {
        assert(seq![Context::Normal].drop_last() =~= Seq::<Context>::empty());
        assert(count_lists(Seq::<Context>::empty()) == 0);
    }
    let l0 = Context::List { ordered: true, nesting: 0, count: 0 };
    assert(s1.stack =~= seq![Context::Normal, l0]);
    let s2 = step(s1, e1);
    let l1 = Context::List { ordered: true, nesting: 0, count: 1 };
    assert(innermost_list(s1.stack) == Some(1int));
    assert(s2.stack =~= seq![Context::Normal, l1]);
    let la = item_line(item_prefix(true, 0, 1), a@);
    let s3 = step(s2, e2);
    assert(s2.stack.drop_last() =~= seq![Context::Normal]);
    assert(crate::translate::stack_style(s2.stack) == TextStyle::plain_spec());
    assert(s3.current =~= la);
    let s4 = step(s3, e3);
    assert(s4.lines =~= seq![la]);
    let s5 = step(s4, e4);
    let l2 = Context::List { ordered: true, nesting: 0, count: 2 };
    assert(innermost_list(s4.stack) == Some(1int));
    assert(s5.stack =~= seq![Context::Normal, l2]);
    let lb = item_line(item_prefix(true, 0, 2), b@);
    let s6 = step(s5, e5);
    assert(s5.stack.drop_last() =~= seq![Context::Normal]);
    assert(crate::translate::stack_style(s5.stack) == TextStyle::plain_spec());
    assert(s6.current =~= lb);
    let s7 = step(s6, e6);
    assert(s7.lines =~= seq![la, lb]);
    let s8 = step(s7, e7);
    let l3 = Context::List { ordered: true, nesting: 0, count: 3 };
    assert(innermost_list(s7.stack) == Some(1int));
    assert(s8.stack =~= seq![Context::Normal, l3]);
    let lc = item_line(item_prefix(true, 0, 3), c@);
    let s9 = step(s8, e8);
    assert(s8.stack.drop_last() =~= seq![Context::Normal]);
    assert(crate::translate::stack_style(s8.stack) == TextStyle::plain_spec());
    assert(s9.current =~= lc);
    let s10 = step(s9, e9);
    assert(s10.lines =~= seq![la, lb, lc]);
    let s11 = step(s10, e10);
    assert(s11.lines == seq![la, lb, lc]);
    assert(s11.sep == 0);
    assert(s11.lines.take(3) =~= seq![la, lb, lc]);
    assert(output_lines(s11) =~= seq![la, lb, lc]);
}

/// A list nested inside another numbers independently, starting again at
/// 1, and its item marker is indented two spaces deeper (one list level
/// deeper here: `nesting` 1 instead of 0).
pub proof fn lemma_nested_list(start: Option<u64>, x: String)
    requires
        start is Some,
    ensures
        ({
            let s = fold_events(
                seq![
                    MdEvent::ListStart(None),
                    MdEvent::ItemStart,
                    MdEvent::ListStart(start),
                    MdEvent::ItemStart,
                    MdEvent::Text(x),
                    MdEvent::ItemEnd,
                    MdEvent::ListEnd,
                    MdEvent::ItemEnd,
                    MdEvent::ListEnd,
                ],
            );
            &&& s.ok
            &&& output_lines(s) == seq![
                LineModel {
                    style: TextStyle::plain_spec(),
                    spans: seq![
                        SpanModel {
                            text: item_prefix(false, 0, 1),
                            style: TextStyle::plain_spec(),
                        },
                    ],
                },
                item_line(item_prefix(true, 1, 1), x@),
            ]
            &&& item_prefix(true, 1, 1) == spaces(2) + dec_str(1) + ". "@
        }),
{
    let e0 = MdEvent::ListStart(None);
    let e1 = MdEvent::ItemStart;
    let e2 = MdEvent::ListStart(start);
    let e3 = MdEvent::ItemStart;
    let e4 = MdEvent::Text(x);
    let e5 = MdEvent::ItemEnd;
    let e6 = MdEvent::ListEnd;
    let e7 = MdEvent::ItemEnd;
    let e8 = MdEvent::ListEnd;
    let p0 = Seq::<MdEvent>::empty();
    lemma_fold_snoc(p0, e0);
    let p1 = p0.push(e0);
    lemma_fold_snoc(p1, e1);
    let p2 = p1.push(e1);
    lemma_fold_snoc(p2, e2);
    let p3 = p2.push(e2);
    lemma_fold_snoc(p3, e3);
    let p4 = p3.push(e3);
    lemma_fold_snoc(p4, e4);
    let p5 = p4.push(e4);
    lemma_fold_snoc(p5, e5);
    let p6 = p5.push(e5);
    lemma_fold_snoc(p6, e6);
    let p7 = p6.push(e6);
    lemma_fold_snoc(p7, e7);
    let p8 = p7.push(e7);
    lemma_fold_snoc(p8, e8);
    assert(p8.push(e8) =~= seq![e0, e1, e2, e3, e4, e5, e6, e7, e8]);
    lemma_base_style();
    let s0 = init_state();
    let s1 = step(s0, e0);
    assert(count_lists(seq![Context::Normal]) == 0) by {
        assert(seq![Context::Normal].drop_last() =~= Seq::<Context>::empty());
        assert(count_lists(Seq::<Context>::empty()) == 0);
    }
    let outer0 = Context::List { ordered: false, nesting: 0, count: 0 };
    assert(s1.stack =~= seq![Context::Normal, outer0]);
    let s2 = step(s1, e1);
    let outer1 = Context::List { ordered: false, nesting: 0, count: 1 };
    assert(innermost_list(s1.stack) == Some(1int));
    assert(s2.stack =~= seq![Context::Normal, outer1]);
    let louter = LineModel {
        style: TextStyle::plain_spec(),
        spans: seq![SpanModel { text: item_prefix(false, 0, 1), style: TextStyle::plain_spec() }],
    };
    assert(s2.current =~= louter);
    let s3 = step(s2, e2);
    assert(count_lists(s2.stack) == 1) by {
        assert(s2.stack.drop_last() =~= seq![Context::Normal]);
        assert(count_lists(seq![Context::Normal]) == 0) by {
            assert(seq![Context::Normal].drop_last() =~= Seq::<Context>::empty());
        }
    }
    let inner0 = Context::List { ordered: true, nesting: 1, count: 0 };
    assert(s3.lines =~= seq![louter]);
    assert(s3.stack =~= seq![Context::Normal, outer1, inner0]);
    let s4 = step(s3, e3);
    let inner1 = Context::List { ordered: true, nesting: 1, count: 1 };
    assert(innermost_list(s3.stack) == Some(2int));
    assert(s4.stack =~= seq![Context::Normal, outer1, inner1]);
    let linner = item_line(item_prefix(true, 1, 1), x@);
    let s5 = step(s4, e4);
    assert(crate::translate::stack_style(s4.stack) == TextStyle::plain_spec()) by {
        assert(s4.stack.drop_last() =~= seq![Context::Normal, outer1]);
        assert(seq![Context::Normal, outer1].drop_last() =~= seq![Context::Normal]);
    }
    assert(s5.current =~= linner);
    let s6 = step(s5, e5);
    assert(s6.lines =~= seq![louter, linner]);
    let s7 = step(s6, e6);
    assert(s7.stack =~= seq![Context::Normal, outer1]);
    let s8 = step(s7, e7);
    assert(s8 == s7);
    let s9 = step(s8, e8);
    assert(s9.lines == seq![louter, linner]);
    assert(s9.sep == 0);
    assert(s9.lines.take(2) =~= seq![louter, linner]);
    assert(output_lines(s9) =~= seq![louter, linner]);
}

/// The line of one list item: its raw marker prefix, then its text.
pub open spec fn item_line(prefix: Seq<char>, text: Seq<char>) -> LineModel {
    LineModel {
        style: TextStyle::plain_spec(),
        spans: seq![
            SpanModel { text: prefix, style: TextStyle::plain_spec() },
            SpanModel { text: text, style: TextStyle::plain_spec() },
        ],
    }
}

/// A hard line break inside a paragraph splits it into two lines with no
/// blank separator between them.
pub proof fn lemma_hard_break(a: String, b: String)
    ensures
        ({
            let s = fold_events(
                seq![
                    MdEvent::ParagraphStart,
                    MdEvent::Text(a),
                    MdEvent::HardBreak,
                    MdEvent::Text(b),
                    MdEvent::ParagraphEnd,
                ],
            );
            &&& s.ok
            &&& output_lines(s) == seq![
                LineModel {
                    style: TextStyle::plain_spec(),
                    spans: seq![SpanModel { text: a@, style: TextStyle::plain_spec() }],
                },
                LineModel {
                    style: TextStyle::plain_spec(),
                    spans: seq![SpanModel { text: b@, style: TextStyle::plain_spec() }],
                },
            ]
        }),
{
    let e0 = MdEvent::ParagraphStart;
    let e1 = MdEvent::Text(a);
    let e2 = MdEvent::HardBreak;
    let e3 = MdEvent::Text(b);
    let e4 = MdEvent::ParagraphEnd;
    let p0 = Seq::<MdEvent>::empty();
    lemma_fold_snoc(p0, e0);
    let p1 = p0.push(e0);
    lemma_fold_snoc(p1, e1);
    let p2 = p1.push(e1);
    lemma_fold_snoc(p2, e2);
    let p3 = p2.push(e2);
    lemma_fold_snoc(p3, e3);
    let p4 = p3.push(e3);
    lemma_fold_snoc(p4, e4);
    assert(p4.push(e4) =~= seq![e0, e1, e2, e3, e4]);
    lemma_base_style();
    let s0 = init_state();
    let s1 = step(s0, e0);
    assert(s1 == s0);
    let la = LineModel {
        style: TextStyle::plain_spec(),
        spans: seq![SpanModel { text: a@, style: TextStyle::plain_spec() }],
    };
    let lb = LineModel {
        style: TextStyle::plain_spec(),
        spans: seq![SpanModel { text: b@, style: TextStyle::plain_spec() }],
    };
    let s2 = step(s1, e1);
    assert(s2.current =~= la);
    let s3 = step(s2, e2);
    assert(s3.lines =~= seq![la]);
    let s4 = step(s3, e3);
    assert(s4.current =~= lb);
    let s5 = step(s4, e4);
    assert(s5.lines =~= seq![la, lb, LineModel::blank()]);
    assert(s5.sep == 1);
    assert(s5.lines.take(2) =~= seq![la, lb]);
    assert(output_lines(s5) =~= seq![la, lb]);
}

} // verus!
