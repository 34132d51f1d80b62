//! The event-to-line translator: a single left-to-right fold over the
//! event stream that drives a stack of formatting contexts, accumulates
//! styled spans into a current line, flushes finished lines, and records
//! link destinations in the registry.
use vstd::prelude::*;

use crate::chars::dec_str;
use crate::chars::push_decimal;
use crate::event::MdEvent;
use crate::links::link_display;
use crate::links::sorted_insert;
use crate::links::format_link;
use crate::links::LinkRegistry;
use crate::text::lines_view;
use crate::text::Line;
use crate::text::LineModel;
use crate::text::Span;
use crate::text::SpanModel;
use crate::text::TextStyle;

verus! {

/// One active formatting scope. The stack of these mirrors the nesting of
/// the input events; `Normal` sits at the bottom and is never popped.
#[derive(Clone, Copy, Debug, PartialEq, Eq, Structural)]
pub enum Context {
    Normal,
    /// A heading of the given level; its style covers the whole line.
    Heading(u8),
    /// Inside strong emphasis: adds bold to contained text.
    Strong,
    /// Inside emphasis: adds italic to contained text.
    Emphasis,
    /// Inside a code block; style-neutral, kept for stack discipline.
    Code,
    /// Inside a list: its kind, how many lists enclose it, and how many
    /// items it has produced so far.
    List { ordered: bool, nesting: usize, count: usize },
}

/// The whole state the fold carries: the context stack, the line under
/// construction, the finished lines, the formatted link destinations in
/// lexicographic order, whether the stream has been well-formed so far
/// (`ok` goes false, and stays false, on an end event that does not match
/// the top of the stack), and `sep`: how many lines at the end of `lines`
/// are blank separators pushed by paragraph ends. Those, and only those,
/// are dropped from the end of the finished output; the separator a
/// heading pushes stays.
#[verifier::ext_equal]
pub ghost struct StateModel {
    pub ok: bool,
    pub stack: Seq<Context>,
    pub current: LineModel,
    pub lines: Seq<LineModel>,
    pub links: Seq<Seq<char>>,
    pub sep: nat,
}

/// The line-level style of a heading: level 1 is bold, level 2 italic,
/// deeper levels are coloured.
pub open spec fn heading_style(level: u8) -> TextStyle {
    if level == 1 {
        TextStyle { bold: true, italic: false, colored: false }
    } else if level == 2 {
        TextStyle { bold: false, italic: true, colored: false }
    } else {
        TextStyle { bold: false, italic: false, colored: true }
    }
}

/// The style of inline text under the given context stack, scanned from
/// the innermost context outward: a heading fixes the style (the line
/// already carries it), strong adds bold, emphasis adds italic.
pub open spec fn stack_style(stack: Seq<Context>) -> TextStyle
    decreases stack.len(),
{
    if stack.len() == 0 {
        TextStyle::plain_spec()
    } else {
        match stack.last() {
            Context::Heading(_) => TextStyle::plain_spec(),
            Context::Strong => TextStyle { bold: true, ..stack_style(stack.drop_last()) },
            Context::Emphasis => TextStyle { italic: true, ..stack_style(stack.drop_last()) },
            _ => stack_style(stack.drop_last()),
        }
    }
}

/// How many list contexts the stack holds.
pub open spec fn count_lists(stack: Seq<Context>) -> nat
    decreases stack.len(),
{
    if stack.len() == 0 {
        0
    } else {
        count_lists(stack.drop_last()) + if stack.last() is List {
            1nat
        } else {
            0nat
        }
    }
}

/// The position of the innermost list context, if any.
pub open spec fn innermost_list(stack: Seq<Context>) -> Option<int>
    decreases stack.len(),
{
    if stack.len() == 0 {
        None
    } else if stack.last() is List {
        Some(stack.len() - 1)
    } else {
        innermost_list(stack.drop_last())
    }
}

/// `n` spaces.
pub open spec fn spaces(n: nat) -> Seq<char>
    decreases n,
{
    if n == 0 {
        Seq::empty()
    } else {
        spaces((n - 1) as nat).push(' ')
    }
}

/// The raw prefix of a list item line: two spaces of indent per enclosing
/// list, then `"* "` for an unordered item or `"<n>. "` for the `n`-th
/// ordered item.
pub open spec fn item_prefix(ordered: bool, nesting: nat, count: nat) -> Seq<char> {
    spaces(2 * nesting) + if ordered {
        dec_str(count) + ". "@
    } else {
        "* "@
    }
}

/// Flush the current line into the output if it holds any spans; a line
/// without spans is kept as it is (its style may already be set).
pub open spec fn flush_state(s: StateModel) -> StateModel {
    if s.current.spans.len() > 0 {
        StateModel { lines: s.lines.push(s.current), current: LineModel::blank(), sep: 0, ..s }
    } else {
        s
    }
}

/// The failed state: everything kept, `ok` cleared.
pub open spec fn fail_state(s: StateModel) -> StateModel {
    StateModel { ok: false, ..s }
}

/// One transition of the translator. A failed state absorbs every event.
pub open spec fn step(s: StateModel, e: MdEvent) -> StateModel {
    if !s.ok {
        s
    } else {
        match e {
            MdEvent::HeadingStart(level) => {
                let f = flush_state(s);
                StateModel {
                    current: LineModel { style: heading_style(level), spans: Seq::empty() },
                    stack: f.stack.push(Context::Heading(level)),
                    ..f
                }
            },
            MdEvent::HeadingEnd => {
                if s.stack.len() > 0 && s.stack.last() is Heading {
                    StateModel {
                        lines: s.lines.push(s.current).push(LineModel::blank()),
                        current: LineModel::blank(),
                        stack: s.stack.drop_last(),
                        sep: 0,
                        ..s
                    }
                } else {
                    fail_state(s)
                }
            },
            MdEvent::ParagraphStart => flush_state(s),
            MdEvent::ParagraphEnd => StateModel {
                lines: s.lines.push(s.current).push(LineModel::blank()),
                current: LineModel::blank(),
                sep: 1 + if s.current.is_blank() {
                    s.sep + 1
                } else {
                    0
                },
                ..s
            },
            MdEvent::StrongStart => StateModel { stack: s.stack.push(Context::Strong), ..s },
            MdEvent::StrongEnd => {
                if s.stack.len() > 0 && s.stack.last() is Strong {
                    StateModel { stack: s.stack.drop_last(), ..s }
                } else {
                    fail_state(s)
                }
            },
            MdEvent::EmphasisStart => StateModel { stack: s.stack.push(Context::Emphasis), ..s },
            MdEvent::EmphasisEnd => {
                if s.stack.len() > 0 && s.stack.last() is Emphasis {
                    StateModel { stack: s.stack.drop_last(), ..s }
                } else {
                    fail_state(s)
                }
            },
            MdEvent::CodeStart => StateModel { stack: s.stack.push(Context::Code), ..s },
            MdEvent::CodeEnd => {
                if s.stack.len() > 0 && s.stack.last() is Code {
                    StateModel { stack: s.stack.drop_last(), ..s }
                } else {
                    fail_state(s)
                }
            },
            MdEvent::ListStart(start) => {
                let f = flush_state(s);
                StateModel {
                    stack: f.stack.push(
                        Context::List {
                            ordered: start is Some,
                            nesting: count_lists(s.stack) as usize,
                            count: 0,
                        },
                    ),
                    ..f
                }
            },
            MdEvent::ListEnd => {
                if s.stack.len() > 0 && s.stack.last() is List {
                    StateModel { stack: s.stack.drop_last(), ..s }
                } else {
                    fail_state(s)
                }
            },
            MdEvent::ItemStart => {
                let f = flush_state(s);
                match innermost_list(f.stack) {
                    Some(j) => match f.stack[j] {
                        Context::List { ordered, nesting, count } => {
                            let c = (count + 1) as usize;
                            StateModel {
                                stack: f.stack.update(
                                    j,
                                    Context::List { ordered, nesting, count: c },
                                ),
                                current: LineModel {
                                    style: f.current.style,
                                    spans: f.current.spans.push(
                                        SpanModel {
                                            text: item_prefix(ordered, nesting as nat, c as nat),
                                            style: TextStyle::plain_spec(),
                                        },
                                    ),
                                },
                                ..f
                            }
                        },
                        _ => f,
                    },
                    None => f,
                }
            },
            MdEvent::ItemEnd => flush_state(s),
            MdEvent::LinkStart(kind, dest, title, id) => StateModel {
                links: sorted_insert(s.links, link_display(kind, dest@, title@, id@)),
                ..s
            },
            MdEvent::Text(t) => StateModel {
                current: LineModel {
                    style: s.current.style,
                    spans: s.current.spans.push(
                        SpanModel { text: t@, style: stack_style(s.stack) },
                    ),
                },
                ..s
            },
            MdEvent::SoftBreak => StateModel {
                current: LineModel {
                    style: s.current.style,
                    spans: s.current.spans.push(
                        SpanModel { text: " "@, style: TextStyle::plain_spec() },
                    ),
                },
                ..s
            },
            MdEvent::HardBreak => StateModel {
                lines: s.lines.push(s.current),
                current: LineModel::blank(),
                sep: 0,
                ..s
            },
            MdEvent::Other => s,
        }
    }
}

/// The state before any event: only `Normal` on the stack, everything
/// else empty.
pub open spec fn init_state() -> StateModel {
    StateModel {
        ok: true,
        stack: seq![Context::Normal],
        current: LineModel::blank(),
        lines: Seq::empty(),
        links: Seq::empty(),
        sep: 0,
    }
}

/// The fold of the whole event stream.
pub open spec fn fold_events(events: Seq<MdEvent>) -> StateModel
    decreases events.len(),
{
    if events.len() == 0 {
        init_state()
    } else {
        step(fold_events(events.drop_last()), events.last())
    }
}

/// The kinds of scope a stream can open and close; used to state that a
/// stream is well formed.
pub enum ScopeKind {
    Heading,
    Strong,
    Emphasis,
    Code,
    List,
}

/// The scope a start event opens, if any.
pub open spec fn start_scope(e: MdEvent) -> Option<ScopeKind> {
    match e {
        MdEvent::HeadingStart(_) => Some(ScopeKind::Heading),
        MdEvent::StrongStart => Some(ScopeKind::Strong),
        MdEvent::EmphasisStart => Some(ScopeKind::Emphasis),
        MdEvent::CodeStart => Some(ScopeKind::Code),
        MdEvent::ListStart(_) => Some(ScopeKind::List),
        _ => None,
    }
}

/// The scope an end event closes, if any.
pub open spec fn end_scope(e: MdEvent) -> Option<ScopeKind> {
    match e {
        MdEvent::HeadingEnd => Some(ScopeKind::Heading),
        MdEvent::StrongEnd => Some(ScopeKind::Strong),
        MdEvent::EmphasisEnd => Some(ScopeKind::Emphasis),
        MdEvent::CodeEnd => Some(ScopeKind::Code),
        MdEvent::ListEnd => Some(ScopeKind::List),
        _ => None,
    }
}

/// Whether the stream is well formed when the given scopes are open:
/// every end event closes exactly the innermost open scope.
pub open spec fn balanced_from(events: Seq<MdEvent>, scopes: Seq<ScopeKind>) -> bool
    decreases events.len(),
{
    if events.len() == 0 {
        true
    } else {
        match start_scope(events.first()) {
            Some(k) => balanced_from(events.drop_first(), scopes.push(k)),
            None => match end_scope(events.first()) {
                Some(k) => scopes.len() > 0 && scopes.last() == k && balanced_from(
                    events.drop_first(),
                    scopes.drop_last(),
                ),
                None => balanced_from(events.drop_first(), scopes),
            },
        }
    }
}

/// A well-formed stream: starts and ends are properly nested. The external
/// tokenizer guarantees this of every stream it yields.
pub open spec fn balanced(events: Seq<MdEvent>) -> bool {
    balanced_from(events, Seq::empty())
}

/// The fold written front to back, for induction along the stream.
spec fn fold_from(s: StateModel, events: Seq<MdEvent>) -> StateModel
    decreases events.len(),
{
    if events.len() == 0 {
        s
    } else {
        fold_from(step(s, events.first()), events.drop_first())
    }
}

proof fn lemma_fold_from_snoc(s: StateModel, events: Seq<MdEvent>, e: MdEvent)
    ensures
        fold_from(s, events.push(e)) == step(fold_from(s, events), e),
    decreases events.len(),
{
    if events.len() == 0 {
        assert(events.push(e).first() == e);
        assert(events.push(e).drop_first() =~= Seq::<MdEvent>::empty());
        assert(fold_from(s, events.push(e)) == fold_from(step(s, e), Seq::<MdEvent>::empty()));
        assert(fold_from(step(s, e), Seq::<MdEvent>::empty()) == step(s, e));
        assert(fold_from(s, events) == s);
    } else {
        assert(events.push(e).first() == events.first());
        assert(events.push(e).drop_first() =~= events.drop_first().push(e));
        lemma_fold_from_snoc(step(s, events.first()), events.drop_first(), e);
        assert(fold_from(s, events.push(e)) == fold_from(
            step(s, events.first()),
            events.drop_first().push(e),
        ));
        assert(fold_from(s, events) == fold_from(step(s, events.first()), events.drop_first()));
    }
}

proof fn lemma_fold_events_from(events: Seq<MdEvent>)
    ensures
        fold_events(events) == fold_from(init_state(), events),
    decreases events.len(),
{
    if events.len() > 0 {
        lemma_fold_events_from(events.drop_last());
        lemma_fold_from_snoc(init_state(), events.drop_last(), events.last());
        assert(events.drop_last().push(events.last()) =~= events);
    }
}

/// The scope a context represents, if any; `Normal` represents none.
pub open spec fn scope_of(c: Context) -> Option<ScopeKind> {
    match c {
        Context::Normal => None,
        Context::Heading(_) => Some(ScopeKind::Heading),
        Context::Strong => Some(ScopeKind::Strong),
        Context::Emphasis => Some(ScopeKind::Emphasis),
        Context::Code => Some(ScopeKind::Code),
        Context::List { .. } => Some(ScopeKind::List),
    }
}

/// The fold's stack is `Normal` under exactly the open scopes, in order.
spec fn stack_matches(stack: Seq<Context>, scopes: Seq<ScopeKind>) -> bool {
    &&& stack.len() == scopes.len() + 1
    &&& stack[0] is Normal
    &&& forall|i: int| 0 <= i < scopes.len() ==> scope_of(#[trigger] stack[i + 1]) == Some(
        scopes[i],
    )
}

proof fn lemma_balanced_fold_from(s: StateModel, events: Seq<MdEvent>, scopes: Seq<ScopeKind>)
    requires
        s.ok,
        stack_matches(s.stack, scopes),
        balanced_from(events, scopes),
    ensures
        fold_from(s, events).ok,
    decreases events.len(),
{
    if events.len() > 0 {
        let e = events.first();
        let rest = events.drop_first();
        let s2 = step(s, e);
        match start_scope(e) {
            Some(k) => {
                assert(s2.ok);
                assert(stack_matches(s2.stack, scopes.push(k))) by {
                    assert(s2.stack.len() == s.stack.len() + 1);
                    assert(s2.stack[0] == s.stack[0]);
                    assert forall|i: int|
                        0 <= i < scopes.push(k).len() implies scope_of(
                        #[trigger] s2.stack[i + 1],
                    ) == Some(scopes.push(k)[i]) by {
                        if i < scopes.len() {
                            assert(s2.stack[i + 1] == s.stack[i + 1]);
                        } else {
                            assert(s2.stack[i + 1] == s2.stack.last());
                        }
                    }
                }
                lemma_balanced_fold_from(s2, rest, scopes.push(k));
            },
            None => match end_scope(e) {
                Some(k) => {
                    assert(scopes.len() > 0 && scopes.last() == k);
                    assert(scope_of(s.stack.last()) == Some(k)) by {
                        assert(s.stack.last() == s.stack[scopes.len() - 1 + 1]);
                    }
                    assert(s2.ok);
                    assert(s2.stack == s.stack.drop_last());
                    assert(stack_matches(s2.stack, scopes.drop_last())) by {
                        assert(s2.stack[0] == s.stack[0]);
                        assert forall|i: int|
                            0 <= i < scopes.drop_last().len() implies scope_of(
                            #[trigger] s2.stack[i + 1],
                        ) == Some(scopes.drop_last()[i]) by {
                            assert(s2.stack[i + 1] == s.stack[i + 1]);
                        }
                    }
                    lemma_balanced_fold_from(s2, rest, scopes.drop_last());
                },
                None => {
                    assert(s2.ok);
                    assert(stack_matches(s2.stack, scopes)) by {
                        if e is ItemStart {
                            let f = flush_state(s);
                            lemma_innermost_is_list(f.stack);
                            match innermost_list(f.stack) {
                                Some(j) => {
                                    assert(f.stack[j] is List);
                                    assert(j != 0);
                                    assert forall|i: int|
                                        0 <= i < scopes.len() implies scope_of(
                                        #[trigger] s2.stack[i + 1],
                                    ) == Some(scopes[i]) by {
                                        if i + 1 != j {
                                            assert(s2.stack[i + 1] == s.stack[i + 1]);
                                        } else {
                                            assert(s2.stack[j] is List);
                                            assert(s.stack[j] is List);
                                        }
                                    }
                                },
                                None => {},
                            }
                        } else {
                            assert(s2.stack == s.stack);
                        }
                    }
                    lemma_balanced_fold_from(s2, rest, scopes);
                },
            },
        }
    }
}

/// A balanced stream always folds to a well-formed final state: parsing a
/// tokenizer-produced stream never fails.
pub proof fn lemma_balanced_stream_ok(events: Seq<MdEvent>)
    requires
        balanced(events),
    ensures
        fold_events(events).ok,
{
    lemma_fold_events_from(events);
    assert(stack_matches(init_state().stack, Seq::<ScopeKind>::empty())) by {
        assert(init_state().stack[0] is Normal);
    }
    lemma_balanced_fold_from(init_state(), events, Seq::empty());
}

/// The finished output of a fold: the pending current line flushed if it
/// holds anything; otherwise the trailing paragraph separators (and only
/// those — a heading's separator stays) dropped.
pub open spec fn output_lines(s: StateModel) -> Seq<LineModel> {
    if s.current.spans.len() > 0 {
        s.lines.push(s.current)
    } else if s.sep <= s.lines.len() {
        s.lines.take(s.lines.len() - s.sep)
    } else {
        Seq::empty()
    }
}

/// The separator count never exceeds the lines it describes.
pub open spec fn sep_ok(s: StateModel) -> bool {
    s.sep <= s.lines.len()
}

/// Every list context on the stack has produced at most `b` items.
pub open spec fn counts_below(stack: Seq<Context>, b: int) -> bool {
    forall|k: int|
        0 <= k < stack.len() ==> (#[trigger] stack[k] matches Context::List { count, .. }
            ==> count <= b)
}

/// The exec form of `heading_style`.
fn heading_style_exec(level: u8) -> (r: TextStyle)
    ensures
        r == heading_style(level),
{
    if level == 1 {
        TextStyle { bold: true, italic: false, colored: false }
    } else if level == 2 {
        TextStyle { bold: false, italic: true, colored: false }
    } else {
        TextStyle { bold: false, italic: false, colored: true }
    }
}

/// Count the list contexts on the stack.
fn count_list_contexts(stack: &Vec<Context>) -> (r: usize)
    ensures
        r == count_lists(stack@),
{
    let mut c: usize = 0;
    let mut i: usize = 0;
    while i < stack.len()
        invariant
            i <= stack.len(),
            c <= i,
            c == count_lists(stack@.take(i as int)),
        decreases stack.len() - i,
    {
        proof {
            assert(stack@.take(i + 1).drop_last() =~= stack@.take(i as int));
            assert(stack@.take(i + 1).last() == stack@[i as int]);
        }
        let is_list = match stack[i] {
            Context::List { .. } => true,
            _ => false,
        };
        if is_list {
            c = c + 1;
        }
        i = i + 1;
    }
    proof {
        assert(stack@.take(stack@.len() as int) =~= stack@);
    }
    c
}

/// Find the innermost list context, searching from the top of the stack.
fn find_innermost_list(stack: &Vec<Context>) -> (r: Option<usize>)
    ensures
        match r {
            Some(j) => innermost_list(stack@) == Some(j as int) && j < stack@.len(),
            None => innermost_list(stack@) is None,
        },
{
    let mut j = stack.len();
    proof {
        assert(stack@.take(j as int) =~= stack@);
    }
    loop
        invariant
            j <= stack.len(),
            innermost_list(stack@) == innermost_list(stack@.take(j as int)),
        ensures
            j == 0,
            innermost_list(stack@) == innermost_list(stack@.take(j as int)),
        decreases j,
    {
        if j == 0 {
            break ;
        }
        proof {
            assert(stack@.take(j as int).drop_last() =~= stack@.take(j - 1));
            assert(stack@.take(j as int).last() == stack@[j - 1]);
        }
        let is_list = match stack[j - 1] {
            Context::List { .. } => true,
            _ => false,
        };
        if is_list {
            proof {
                assert(innermost_list(stack@.take(j as int)) == Some(j - 1));
            }
            return Some(j - 1);
        }
        j = j - 1;
    }
    proof {
        assert(stack@.take(0) =~= Seq::<Context>::empty());
    }
    None
}

/// Apply accumulated bold/italic modifiers to a base style.
spec fn apply_mods(bold: bool, italic: bool, s: TextStyle) -> TextStyle {
    TextStyle { bold: s.bold || bold, italic: s.italic || italic, colored: s.colored }
}

/// Compute the style of inline text by scanning the stack from the top:
/// stop at a heading, accumulate bold under strong and italic under
/// emphasis.
fn compute_style(stack: &Vec<Context>) -> (r: TextStyle)
    ensures
        r == stack_style(stack@),
{
    let mut bold = false;
    let mut italic = false;
    let mut j = stack.len();
    proof {
        assert(stack@.take(j as int) =~= stack@);
    }
    loop
        invariant
            j <= stack.len(),
            stack_style(stack@) == apply_mods(bold, italic, stack_style(stack@.take(j as int))),
        ensures
            stack_style(stack@) == (TextStyle { bold: bold, italic: italic, colored: false }),
        decreases j,
    {
        if j == 0 {
            proof {
                assert(stack@.take(0) =~= Seq::<Context>::empty());
            }
            break ;
        }
        proof {
            assert(stack@.take(j as int).drop_last() =~= stack@.take(j - 1));
            assert(stack@.take(j as int).last() == stack@[j - 1]);
        }
        let c = stack[j - 1];
        match c {
            Context::Heading(_) => {
                return TextStyle { bold, italic, colored: false };
            },
            Context::Strong => {
                bold = true;
            },
            Context::Emphasis => {
                italic = true;
            },
            _ => {},
        }
        j = j - 1;
    }
    TextStyle { bold, italic, colored: false }
}

/// Build the raw prefix of a list item line.
fn make_item_prefix(ordered: bool, nesting: usize, count: usize) -> (r: String)
    ensures
        r@ == item_prefix(ordered, nesting as nat, count as nat),
{
    let mut s = String::new();
    let mut k: usize = 0;
    while k < nesting
        invariant
            k <= nesting,
            s@ == spaces(2 * k as nat),
        decreases nesting - k,
    {
        s.append("  ");
        proof {
            reveal_strlit("  ");
            assert(spaces(2 * k as nat + 2) == spaces(2 * k as nat + 1).push(' '));
            assert(spaces(2 * k as nat + 1) == spaces(2 * k as nat).push(' '));
            assert(("  "@).len() == 2 && ("  "@)[0] == ' ' && ("  "@)[1] == ' ');
            assert(s@ =~= spaces(2 * (k + 1) as nat));
        }
        k = k + 1;
    }
    if ordered {
        push_decimal(count, &mut s);
        s.append(". ");
    } else {
        s.append("* ");
    }
    s
}

/// The translator: the fold state in executable form.
#[derive(Debug)]
pub struct Translator {
    ok: bool,
    stack: Vec<Context>,
    current: Line,
    lines: Vec<Line>,
    links: LinkRegistry,
    sep: usize,
}

impl View for Translator {
    type V = StateModel;

    closed spec fn view(&self) -> StateModel {
        StateModel {
            ok: self.ok,
            stack: self.stack@,
            current: self.current@,
            lines: lines_view(self.lines@),
            links: self.links@,
            sep: self.sep as nat,
        }
    }
}

impl Translator {
    /// The registry stays sorted throughout the fold.
    pub closed spec fn wf(&self) -> bool {
        self.links.wf()
    }

    pub fn new() -> (r: Translator)
        ensures
            r@ == init_state(),
            r.wf(),
    {
        let mut stack: Vec<Context> = Vec::new();
        stack.push(Context::Normal);
        let r = Translator {
            ok: true,
            stack,
            current: Line::empty(),
            lines: Vec::new(),
            links: LinkRegistry::new(),
            sep: 0,
        };
        proof {
            assert(r@.stack =~= seq![Context::Normal]);
            assert(r@.lines =~= Seq::<LineModel>::empty());
            assert(r@ =~~= init_state());
        }
        r
    }

    /// Swap the current line out for a fresh empty one.
    fn take_current(&mut self) -> (r: Line)
        ensures
            r@ == old(self)@.current,
            final(self)@ == (StateModel { current: LineModel::blank(), ..old(self)@ }),
            final(self).wf() == old(self).wf(),
    {
        let mut cur = Line::empty();
        core::mem::swap(&mut cur, &mut self.current);
        proof {
            assert(self@ =~~= StateModel { current: LineModel::blank(), ..old(self)@ });
        }
        cur
    }

    /// Append one finished line to the output.
    fn push_line(&mut self, l: Line)
        ensures
            final(self)@ == (StateModel { lines: old(self)@.lines.push(l@), ..old(self)@ }),
            final(self).wf() == old(self).wf(),
    {
        let ghost lv = l@;
        self.lines.push(l);
        proof {
            assert(lines_view(self.lines@) =~= lines_view(old(self).lines@).push(lv));
            assert(self@ =~~= StateModel { lines: old(self)@.lines.push(lv), ..old(self)@ });
        }
    }

    /// Flush the current line into the output if it holds any spans.
    fn flush(&mut self)
        ensures
            final(self)@ == flush_state(old(self)@),
            final(self).wf() == old(self).wf(),
    {
        if self.current.has_spans() {
            let cur = self.take_current();
            self.push_line(cur);
            self.sep = 0;
            proof {
                assert(self@ =~~= flush_state(old(self)@));
            }
        }
    }

    /// Whether the top of the stack is a context that the given end event
    /// may pop; on a mismatch the stream is malformed.
    fn top_matches(&self, e: &MdEvent) -> (r: bool)
        ensures
            r == (self@.stack.len() > 0 && match *e {
                MdEvent::HeadingEnd => self@.stack.last() is Heading,
                MdEvent::StrongEnd => self@.stack.last() is Strong,
                MdEvent::EmphasisEnd => self@.stack.last() is Emphasis,
                MdEvent::CodeEnd => self@.stack.last() is Code,
                MdEvent::ListEnd => self@.stack.last() is List,
                _ => false,
            }),
    {
        let n = self.stack.len();
        if n == 0 {
            return false;
        }
        let top = self.stack[n - 1];
        match (e, top) {
            (MdEvent::HeadingEnd, Context::Heading(_)) => true,
            (MdEvent::StrongEnd, Context::Strong) => true,
            (MdEvent::EmphasisEnd, Context::Emphasis) => true,
            (MdEvent::CodeEnd, Context::Code) => true,
            (MdEvent::ListEnd, Context::List { .. }) => true,
            _ => false,
        }
    }

    /// Process one event: the exec form of `step`.
    pub fn step_event(&mut self, e: &MdEvent)
        requires
            old(self).wf(),
            counts_below(old(self)@.stack, usize::MAX - 1),
            sep_ok(old(self)@),
        ensures
            final(self)@ == step(old(self)@, *e),
            final(self).wf(),
    {
        if !self.ok {
            return ;
        }
        match e {
            MdEvent::HeadingStart(level) => {
                self.flush();
                self.current = Line::styled(heading_style_exec(*level));
                self.stack.push(Context::Heading(*level));
                proof {
                    assert(self@ =~~= step(old(self)@, *e));
                }
            },
            MdEvent::HeadingEnd => {
                if self.top_matches(e) {
                    let cur = self.take_current();
                    self.push_line(cur);
                    self.push_line(Line::empty());
                    self.stack.pop();
                    self.sep = 0;
                    proof {
                        assert(self@.stack =~= old(self)@.stack.drop_last());
                        assert(self@ =~~= step(old(self)@, *e));
                    }
                } else {
                    self.ok = false;
                    proof {
                        assert(self@ =~~= step(old(self)@, *e));
                    }
                }
            },
            MdEvent::ParagraphStart => {
                self.flush();
                proof {
                    assert(self@ =~~= step(old(self)@, *e));
                }
            },
            MdEvent::ParagraphEnd => {
                let was_blank = self.current.is_blank();
                let old_sep = self.sep;
                let cur = self.take_current();
                self.push_line(cur);
                self.push_line(Line::empty());
                let n = self.lines.len();
                proof {
                    assert(self@.lines.len() == old(self)@.lines.len() + 2);
                    assert(self@.lines == lines_view(self.lines@));
                    assert(n == self@.lines.len());
                    assert(old_sep + 2 <= n);
                }
                self.sep = if was_blank {
                    old_sep + 2
                } else {
                    1
                };
                proof {
                    assert(self@ =~~= step(old(self)@, *e));
                }
            },
            MdEvent::StrongStart => {
                self.stack.push(Context::Strong);
                proof {
                    assert(self@ =~~= step(old(self)@, *e));
                }
            },
            MdEvent::EmphasisStart => {
                self.stack.push(Context::Emphasis);
                proof {
                    assert(self@ =~~= step(old(self)@, *e));
                }
            },
            MdEvent::CodeStart => {
                self.stack.push(Context::Code);
                proof {
                    assert(self@ =~~= step(old(self)@, *e));
                }
            },
            MdEvent::StrongEnd | MdEvent::EmphasisEnd | MdEvent::CodeEnd | MdEvent::ListEnd => {
                if self.top_matches(e) {
                    self.stack.pop();
                    proof {
                        assert(self@.stack =~= old(self)@.stack.drop_last());
                        assert(self@ =~~= step(old(self)@, *e));
                    }
                } else {
                    self.ok = false;
                    proof {
                        assert(self@ =~~= step(old(self)@, *e));
                    }
                }
            },
            MdEvent::ListStart(start) => {
                self.flush();
                let nesting = count_list_contexts(&self.stack);
                self.stack.push(
                    Context::List { ordered: start.is_some(), nesting, count: 0 },
                );
                proof {
                    assert(count_lists(old(self)@.stack) <= old(self)@.stack.len()) by {
                        lemma_count_lists_le(old(self)@.stack);
                    }
                    assert(nesting == count_lists(old(self)@.stack) as usize);
                    assert(self@ =~~= step(old(self)@, *e));
                }
            },
            MdEvent::ItemStart => {
                self.flush();
                let found = find_innermost_list(&self.stack);
                proof {
                    lemma_innermost_is_list(self@.stack);
                }
                match found {
                    Some(j) => {
                        let c = self.stack[j];
                        match c {
                            Context::List { ordered, nesting, count } => {
                                proof {
                                    assert(old(self)@.stack[j as int] matches Context::List {
                                        count,
                                        ..
                                    } ==> count <= usize::MAX - 1);
                                }
                                let newc = count + 1;
                                self.stack.set(
                                    j,
                                    Context::List { ordered, nesting, count: newc },
                                );
                                let prefix = make_item_prefix(ordered, nesting, newc);
                                self.current.push_span(Span::new(prefix, TextStyle::plain()));
                                proof {
                                    assert(self@ =~~= step(old(self)@, *e));
                                }
                            },
                            _ => {
                                proof {
                                    assert(false);
                                }
                            },
                        }
                    },
                    None => {
                        proof {
                            assert(self@ =~~= step(old(self)@, *e));
                        }
                    },
                }
            },
            MdEvent::ItemEnd => {
                self.flush();
                proof {
                    assert(self@ =~~= step(old(self)@, *e));
                }
            },
            MdEvent::LinkStart(kind, dest, title, id) => {
                let formatted = format_link(*kind, dest.as_str(), title.as_str(), id.as_str());
                self.links.insert(formatted);
                proof {
                    assert(self@ =~~= step(old(self)@, *e));
                }
            },
            MdEvent::Text(t) => {
                let style = compute_style(&self.stack);
                self.current.push_span(Span::new(t.clone(), style));
                proof {
                    assert(self@ =~~= step(old(self)@, *e));
                }
            },
            MdEvent::SoftBreak => {
                self.current.push_span(Span::new(String::from_str(" "), TextStyle::plain()));
                proof {
                    assert(self@ =~~= step(old(self)@, *e));
                }
            },
            MdEvent::HardBreak => {
                let cur = self.take_current();
                self.push_line(cur);
                self.sep = 0;
                proof {
                    assert(self@ =~~= step(old(self)@, *e));
                }
            },
            MdEvent::Other => {
                proof {
                    assert(self@ =~~= step(old(self)@, *e));
                }
            },
        }
    }
}

/// Run the translator over a whole event stream: the exec form of
/// `fold_events`.
pub fn translate(events: &Vec<MdEvent>) -> (t: Translator)
    ensures
        t@ == fold_events(events@),
        t.wf(),
{
    let mut t = Translator::new();
    let mut i: usize = 0;
    proof {
        assert(events@.take(0) =~= Seq::<MdEvent>::empty());
    }
    while i < events.len()
        invariant
            i <= events.len(),
            t@ == fold_events(events@.take(i as int)),
            t.wf(),
            counts_below(t@.stack, i as int),
            sep_ok(t@),
        decreases events.len() - i,
    {
        proof {
            lemma_step_counts(t@, events@[i as int], i as int);
            lemma_step_sep(t@, events@[i as int]);
        }
        t.step_event(&events[i]);
        proof {
            assert(events@.take(i + 1).drop_last() =~= events@.take(i as int));
            assert(events@.take(i + 1).last() == events@[i as int]);
        }
        i = i + 1;
    }
    proof {
        assert(events@.take(events@.len() as int) =~= events@);
    }
    t
}

impl Translator {
    /// Finish the fold: flush any pending content, drop the trailing
    /// paragraph separators (a heading's separator stays), and hand out
    /// the finished lines — or `None` if the stream was malformed —
    /// together with the link registry, which is filled as far as the
    /// stream reached either way.
    pub fn finish(self) -> (r: (Option<Vec<Line>>, LinkRegistry))
        requires
            self.wf(),
        ensures
            r.1@ == self@.links,
            r.1.wf(),
            match r.0 {
                Some(v) => self@.ok && lines_view(v@) == output_lines(self@),
                None => !self@.ok,
            },
    {
        let ghost sv = self@;
        let Translator { ok, stack: _, current, mut lines, links, sep } = self;
        if !ok {
            return (None, links);
        }
        if current.has_spans() {
            let ghost cv = current@;
            lines.push(current);
            proof {
                assert(lines_view(lines@) =~= sv.lines.push(cv));
                assert(lines_view(lines@) == output_lines(sv));
            }
            return (Some(lines), links);
        }
        let n = lines.len();
        let keep = if sep <= n {
            n - sep
        } else {
            0
        };
        let ghost before = lines_view(lines@);
        lines.truncate(keep);
        proof {
            assert(lines_view(lines@) =~= before.take(keep as int));
            assert(lines_view(lines@) == output_lines(sv));
        }
        (Some(lines), links)
    }
}

/// There are never more list contexts than stack entries.
proof fn lemma_count_lists_le(stack: Seq<Context>)
    ensures
        count_lists(stack) <= stack.len(),
    decreases stack.len(),
{
    if stack.len() > 0 {
        lemma_count_lists_le(stack.drop_last());
    }
}

/// One step raises no item counter by more than one.
proof fn lemma_step_counts(s: StateModel, e: MdEvent, b: int)
    requires
        b >= 0,
        counts_below(s.stack, b),
    ensures
        counts_below(step(s, e).stack, b + 1),
{
    let t = step(s, e).stack;
    assert forall|k: int|
        0 <= k < t.len() implies (#[trigger] t[k] matches Context::List { count, .. } ==> count
        <= b + 1) by {
        if k < s.stack.len() {
            assert(s.stack[k] matches Context::List { count, .. } ==> count <= b);
        }
        if s.ok && e is ItemStart {
            let f = flush_state(s);
            match innermost_list(f.stack) {
                Some(j) => {
                    lemma_innermost_is_list(f.stack);
                    if k != j {
                        assert(t[k] == f.stack[k]);
                    } else {
                        match f.stack[j] {
                            Context::List { ordered, nesting, count } => {
                                assert(count <= b);
                                assert(t[j] == Context::List {
                                    ordered,
                                    nesting,
                                    count: (count + 1) as usize,
                                });
                            },
                            _ => {},
                        }
                    }
                },
                None => {},
            }
        }
    }
}

/// One step keeps the separator count within the lines it describes.
proof fn lemma_step_sep(s: StateModel, e: MdEvent)
    requires
        sep_ok(s),
    ensures
        sep_ok(step(s, e)),
{
}

/// The position `innermost_list` finds holds a list context.
proof fn lemma_innermost_is_list(stack: Seq<Context>)
    ensures
        innermost_list(stack) matches Some(j) ==> 0 <= j < stack.len() && stack[j] is List,
    decreases stack.len(),
{
    if stack.len() > 0 && !(stack.last() is List) {
        lemma_innermost_is_list(stack.drop_last());
        match innermost_list(stack.drop_last()) {
            Some(j) => {
                assert(stack.drop_last()[j] == stack[j]);
            },
            None => {},
        }
    }
}

} // verus!

