//! The line formatter: from tokens to the lines that are shown.
//!
//! Each token becomes exactly one line. The line holds the token's text and,
//! where styling is on, the terminal codes of the style that the style sheet
//! has for the token's kind. A blank token becomes an empty line.

use vstd::prelude::*;
use crate::error::CoreError;
use crate::span::{Span, SpanView};
use crate::style::{lemma_strip_shown, strip_codes, TextStyle, ESCAPE};
use crate::text::strings_view;
use crate::tokenizer::{
    step_spec, tokens_from, tokens_view, LineToken, TokenView, Tokenizer, TokenizerState,
};

verus! {

/// The kinds of token.
#[derive(Debug, Clone, Copy, PartialEq, Eq, Structural)]
pub enum TokenKind {
    Heading,
    Description,
    ExampleDescription,
    CommandTemplate,
    Blank,
}

impl TokenView {
    /// The kind of the token.
    pub open spec fn kind(self) -> TokenKind {
        match self {
            TokenView::Heading(_) => TokenKind::Heading,
            TokenView::Description(_) => TokenKind::Description,
            TokenView::ExampleDescription(_) => TokenKind::ExampleDescription,
            TokenView::CommandTemplate(_) => TokenKind::CommandTemplate,
            TokenView::Blank => TokenKind::Blank,
        }
    }
}

impl LineToken {
    /// The kind of the token.
    pub fn kind(&self) -> (kind: TokenKind)
        ensures
            kind == self@.kind(),
    {
        match self {
            LineToken::Heading(_) => TokenKind::Heading,
            LineToken::Description(_) => TokenKind::Description,
            LineToken::ExampleDescription(_) => TokenKind::ExampleDescription,
            LineToken::CommandTemplate(_) => TokenKind::CommandTemplate,
            LineToken::Blank => TokenKind::Blank,
        }
    }
}

/// The styles of a page, one for each kind of token that has text, and one for
/// the placeholders inside a command template.
#[derive(Debug, Clone, Copy, PartialEq, Eq, Structural)]
pub struct StyleSheet {
    pub heading: TextStyle,
    pub description: TextStyle,
    pub example_description: TextStyle,
    pub command_template: TextStyle,
    pub placeholder: TextStyle,
}

impl StyleSheet {
    /// The style of a kind of token. A blank token has nothing to style, and
    /// its style is the plain one.
    pub open spec fn style_of(self, kind: TokenKind) -> TextStyle {
        match kind {
            TokenKind::Heading => self.heading,
            TokenKind::Description => self.description,
            TokenKind::ExampleDescription => self.example_description,
            TokenKind::CommandTemplate => self.command_template,
            TokenKind::Blank => TextStyle { foreground: None, bold: false, underline: false },
        }
    }

    /// The style of a kind of token.
    pub fn lookup(&self, kind: TokenKind) -> (style: TextStyle)
        ensures
            style == self.style_of(kind),
    {
        match kind {
            TokenKind::Heading => self.heading,
            TokenKind::Description => self.description,
            TokenKind::ExampleDescription => self.example_description,
            TokenKind::CommandTemplate => self.command_template,
            TokenKind::Blank => TextStyle::plain(),
        }
    }
}

/// One span as it is shown: a literal in the style of the template, a
/// placeholder in the style of placeholders, either without braces.
pub open spec fn span_shown(
    span: SpanView,
    literal: TextStyle,
    placeholder: TextStyle,
    styling_enabled: bool,
) -> Seq<u8> {
    match span {
        SpanView::Literal(t) => literal.shown(t, styling_enabled),
        SpanView::Placeholder(t) => placeholder.shown(t, styling_enabled),
    }
}

/// The spans of a template as they are shown, one after the other.
pub open spec fn spans_shown(
    spans: Seq<SpanView>,
    literal: TextStyle,
    placeholder: TextStyle,
    styling_enabled: bool,
) -> Seq<u8>
    decreases spans.len(),
{
    if spans.len() == 0 {
        Seq::empty()
    } else {
        spans_shown(spans.drop_last(), literal, placeholder, styling_enabled) + span_shown(
            spans.last(),
            literal,
            placeholder,
            styling_enabled,
        )
    }
}

/// The line that a token becomes.
pub open spec fn line_spec(token: TokenView, sheet: StyleSheet, styling_enabled: bool) -> Seq<u8> {
    let style = sheet.style_of(token.kind());
    match token {
        TokenView::Heading(t) => style.shown(t, styling_enabled),
        TokenView::Description(t) => style.shown(t, styling_enabled),
        TokenView::ExampleDescription(t) => style.shown(t, styling_enabled),
        TokenView::CommandTemplate(spans) => spans_shown(
            spans,
            style,
            sheet.placeholder,
            styling_enabled,
        ),
        TokenView::Blank => Seq::empty(),
    }
}

/// The lines that a sequence of tokens becomes: one for each, in their order.
pub open spec fn lines_spec(tokens: Seq<TokenView>, sheet: StyleSheet, styling_enabled: bool) -> Seq<
    Seq<u8>,
> {
    Seq::new(tokens.len(), |i: int| line_spec(tokens[i], sheet, styling_enabled))
}

/// What is shown of a page from a given state on: the lines of its tokens, or
/// the fault of the page.
pub open spec fn render_spec(
    state: TokenizerState,
    rest: Seq<u8>,
    sheet: StyleSheet,
    styling_enabled: bool,
) -> Result<Seq<Seq<u8>>, CoreError> {
    match tokens_from(state, rest) {
        Ok(tokens) => Ok(lines_spec(tokens, sheet, styling_enabled)),
        Err(e) => Err(e),
    }
}

/// The view of the outcome of rendering.
pub open spec fn lines_result_view(r: Result<Vec<Vec<u8>>, CoreError>) -> Result<
    Seq<Seq<u8>>,
    CoreError,
> {
    match r {
        Ok(lines) => Ok(strings_view(lines@)),
        Err(e) => Err(e),
    }
}

/// The view of a line that may be missing.
pub open spec fn line_option_view(line: Option<Vec<u8>>) -> Option<Seq<u8>> {
    match line {
        Some(l) => Some(l@),
        None => None,
    }
}

/// The line of a token that may be missing.
pub open spec fn line_option_spec(
    token: Option<TokenView>,
    sheet: StyleSheet,
    styling_enabled: bool,
) -> Option<Seq<u8>> {
    match token {
        Some(t) => Some(line_spec(t, sheet, styling_enabled)),
        None => None,
    }
}

/// The spans of a template as they are shown.
fn render_spans(
    spans: &Vec<Span>,
    literal: TextStyle,
    placeholder: TextStyle,
    styling_enabled: bool,
) -> (line: Vec<u8>)
    ensures
        line@ == spans_shown(
            crate::span::spans_view(spans@),
            literal,
            placeholder,
            styling_enabled,
        ),
{
    let ghost views = crate::span::spans_view(spans@);
    let mut line: Vec<u8> = Vec::new();
    let mut i: usize = 0;
    while i < spans.len()
        invariant
            i <= spans.len(),
            views == crate::span::spans_view(spans@),
            line@ == spans_shown(views.take(i as int), literal, placeholder, styling_enabled),
        decreases spans.len() - i,
    {
        let mut piece = match &spans[i] {
            Span::Literal(t) => literal.show(t.as_slice(), styling_enabled),
            Span::Placeholder(t) => placeholder.show(t.as_slice(), styling_enabled),
        };
        proof {
            let next = views.take(i + 1);
            assert(next.drop_last() == views.take(i as int));
            assert(next.last() == spans@[i as int]@);
        }
        line.append(&mut piece);
        i += 1;
    }
    proof {
        assert(views.take(spans.len() as int) == views);
    }
    line
}

/// The line that a token becomes. The style is looked up once, by the kind of
/// the token.
pub fn render_line(token: &LineToken, sheet: &StyleSheet, styling_enabled: bool) -> (line: Vec<u8>)
    ensures
        line@ == line_spec(token@, *sheet, styling_enabled),
{
    let style = sheet.lookup(token.kind());
    match token {
        LineToken::Heading(t) => style.show(t.as_slice(), styling_enabled),
        LineToken::Description(t) => style.show(t.as_slice(), styling_enabled),
        LineToken::ExampleDescription(t) => style.show(t.as_slice(), styling_enabled),
        LineToken::CommandTemplate(spans) => render_spans(
            spans,
            style,
            sheet.placeholder,
            styling_enabled,
        ),
        LineToken::Blank => Vec::new(),
    }
}

/// Reads the next token and hands back its line.
///
/// `Ok(None)` says that the page is used up. A caller that writes each line as
/// it comes, and stops when writing fails, has written the lines up to there.
pub fn render_next(tokenizer: &mut Tokenizer, sheet: &StyleSheet, styling_enabled: bool) -> (r:
    Result<Option<Vec<u8>>, CoreError>)
    ensures
        match step_spec(old(tokenizer).state_view(), old(tokenizer).remaining()) {
            Ok(step) => r matches Ok(line) && line_option_view(line) == line_option_spec(
                step.token,
                *sheet,
                styling_enabled,
            ) && final(tokenizer).state_view() == step.state && final(tokenizer).remaining() == old(
                tokenizer,
            ).remaining().subrange(step.consumed as int, old(tokenizer).remaining().len() as int),
            Err(e) => r == Err::<Option<Vec<u8>>, CoreError>(e) && final(tokenizer).state_view()
                == TokenizerState::Done && final(tokenizer).remaining().len() == 0,
        },
{
    match tokenizer.next_token() {
        Err(e) => Err(e),
        Ok(None) => Ok(None),
        Ok(Some(token)) => Ok(Some(render_line(&token, sheet, styling_enabled))),
    }
}

/// Reads the page to its end and hands back its lines, one for each token.
pub fn render(tokenizer: &mut Tokenizer, sheet: &StyleSheet, styling_enabled: bool) -> (r: Result<
    Vec<Vec<u8>>,
    CoreError,
>)
    ensures
        lines_result_view(r) == render_spec(
            old(tokenizer).state_view(),
            old(tokenizer).remaining(),
            *sheet,
            styling_enabled,
        ),
        final(tokenizer).state_view() == TokenizerState::Done,
        final(tokenizer).remaining().len() == 0,
{
    let tokens = match tokenizer.collect() {
        Ok(tokens) => tokens,
        Err(e) => {
            return Err(e);
        },
    };
    let ghost views = tokens_view(tokens@);
    let mut lines: Vec<Vec<u8>> = Vec::new();
    let mut i: usize = 0;
    while i < tokens.len()
        invariant
            i <= tokens.len(),
            views == tokens_view(tokens@),
            lines@.len() == i,
            strings_view(lines@) == lines_spec(views.take(i as int), *sheet, styling_enabled),
        decreases tokens.len() - i,
    {
        let ghost before = strings_view(lines@);
        let ghost old_lines = lines@;
        let line = render_line(&tokens[i], sheet, styling_enabled);
        lines.push(line);
        proof {
            let next = views.take(i + 1);
            let after = strings_view(lines@);
            assert(views.len() == tokens@.len());
            assert(next.len() == i + 1 && after.len() == i + 1);
            assert(before.len() == i);
            assert forall|j: int| 0 <= j < after.len() implies after[j] == line_spec(
                next[j],
                *sheet,
                styling_enabled,
            ) by {
                if j < i {
                    assert(lines@[j] == old_lines[j]);
                    assert(after[j] == before[j]);
                    assert(next[j] == views.take(i as int)[j]);
                } else {
                    assert(next[j] == tokens@[i as int]@);
                }
            }
            assert(after =~= lines_spec(next, *sheet, styling_enabled));
        }
        i += 1;
    }
    proof {
        assert(views.take(tokens.len() as int) == views);
    }
    Ok(lines)
}

/// Whether no text of the token holds an escape.
pub open spec fn is_free_of_codes(token: TokenView) -> bool {
    match token {
        TokenView::Heading(t) => !t.contains(ESCAPE),
        TokenView::Description(t) => !t.contains(ESCAPE),
        TokenView::ExampleDescription(t) => !t.contains(ESCAPE),
        TokenView::CommandTemplate(spans) => forall|i: int|
            0 <= i < spans.len() ==> !(#[trigger] spans[i]).text().contains(ESCAPE),
        TokenView::Blank => true,
    }
}

/// The text of a token as it is read by a person: the text of the token, or
/// the texts of its spans one after the other.
pub open spec fn plain_text(token: TokenView) -> Seq<u8> {
    match token {
        TokenView::Heading(t) => t,
        TokenView::Description(t) => t,
        TokenView::ExampleDescription(t) => t,
        TokenView::CommandTemplate(spans) => spans_text(spans),
        TokenView::Blank => Seq::empty(),
    }
}

/// The texts of the spans of a template, one after the other.
pub open spec fn spans_text(spans: Seq<SpanView>) -> Seq<u8>
    decreases spans.len(),
{
    if spans.len() == 0 {
        Seq::empty()
    } else {
        spans_text(spans.drop_last()) + spans.last().text()
    }
}

/// Without styling the spans of a template show their text and nothing else.
pub proof fn lemma_spans_shown_plain(
    spans: Seq<SpanView>,
    literal: TextStyle,
    placeholder: TextStyle,
)
    ensures
        spans_shown(spans, literal, placeholder, false) == spans_text(spans),
    decreases spans.len(),
{
    if spans.len() > 0 {
        lemma_spans_shown_plain(spans.drop_last(), literal, placeholder);
    }
}

/// Stripping the codes from the spans of a template, shown with styling on,
/// leaves what they show with styling off.
proof fn lemma_strip_spans(
    spans: Seq<SpanView>,
    literal: TextStyle,
    placeholder: TextStyle,
    rest: Seq<u8>,
)
    requires
        forall|i: int| 0 <= i < spans.len() ==> !(#[trigger] spans[i]).text().contains(ESCAPE),
    ensures
        strip_codes(spans_shown(spans, literal, placeholder, true) + rest) == spans_shown(
            spans,
            literal,
            placeholder,
            false,
        ) + strip_codes(rest),
    decreases spans.len(),
{
    if spans.len() == 0 {
        assert(Seq::<u8>::empty() + rest =~= rest);
        assert(Seq::<u8>::empty() + strip_codes(rest) =~= strip_codes(rest));
    } else {
        let front = spans.drop_last();
        let last = spans.last();
        let style = match last {
            SpanView::Literal(_) => literal,
            SpanView::Placeholder(_) => placeholder,
        };
        let text = last.text();
        assert(span_shown(last, literal, placeholder, true) == style.shown(text, true));
        assert(span_shown(last, literal, placeholder, false) == text);
        assert forall|i: int| 0 <= i < front.len() implies !(#[trigger] front[i]).text().contains(
            ESCAPE,
        ) by {
            assert(front[i] == spans[i]);
        }
        let more = style.shown(text, true) + rest;
        lemma_strip_spans(front, literal, placeholder, more);
        lemma_strip_shown(style, text, rest);
        assert(spans_shown(spans, literal, placeholder, true) + rest =~= spans_shown(
            front,
            literal,
            placeholder,
            true,
        ) + more);
        assert(spans_shown(front, literal, placeholder, false) + (text + strip_codes(rest))
            =~= spans_shown(spans, literal, placeholder, false) + strip_codes(rest));
    }
}

/// Styling changes the codes around the text of a line and never the text:
/// without styling a line is the text of its token, and with styling it is a
/// line that, stripped of its codes, is that text again.
pub proof fn lemma_styling_keeps_text(token: TokenView, sheet: StyleSheet)
    requires
        is_free_of_codes(token),
    ensures
        line_spec(token, sheet, false) == plain_text(token),
        strip_codes(line_spec(token, sheet, true)) == plain_text(token),
{
    let style = sheet.style_of(token.kind());
    let none = Seq::<u8>::empty();
    assert(strip_codes(none) == none);
    match token {
        TokenView::Heading(t) => {
            lemma_strip_shown(style, t, none);
            assert(style.shown(t, true) + none =~= style.shown(t, true));
            assert(t + none =~= t);
        },
        TokenView::Description(t) => {
            lemma_strip_shown(style, t, none);
            assert(style.shown(t, true) + none =~= style.shown(t, true));
            assert(t + none =~= t);
        },
        TokenView::ExampleDescription(t) => {
            lemma_strip_shown(style, t, none);
            assert(style.shown(t, true) + none =~= style.shown(t, true));
            assert(t + none =~= t);
        },
        TokenView::CommandTemplate(spans) => {
            lemma_spans_shown_plain(spans, style, sheet.placeholder);
            lemma_strip_spans(spans, style, sheet.placeholder, none);
            let styled = spans_shown(spans, style, sheet.placeholder, true);
            assert(styled + none =~= styled);
            assert(spans_text(spans) + none =~= spans_text(spans));
        },
        TokenView::Blank => {},
    }
}

/// Every token has a line of its own, in the order of the tokens, and the line
/// of a blank token is empty: blank lines are neither dropped nor merged.
pub proof fn lemma_one_line_per_token(
    tokens: Seq<TokenView>,
    sheet: StyleSheet,
    styling_enabled: bool,
)
    ensures
        lines_spec(tokens, sheet, styling_enabled).len() == tokens.len(),
        forall|i: int|
            0 <= i < tokens.len() ==> (#[trigger] lines_spec(tokens, sheet, styling_enabled)[i])
                == line_spec(tokens[i], sheet, styling_enabled),
        forall|i: int|
            0 <= i < tokens.len() && tokens[i] is Blank ==> (#[trigger] lines_spec(
                tokens,
                sheet,
                styling_enabled,
            )[i]).len() == 0,
{
}

} // verus!
