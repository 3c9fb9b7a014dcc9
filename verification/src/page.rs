//! The page dialect written out, and that reading gives back what was written.
//!
//! A page is a heading, a blank line, its descriptions, a blank line, and its
//! examples, each of them a description, a blank line, the command in a code
//! fence and a blank line. The tokens of such a page are the parts of the
//! page, each once, in their order and with their text unchanged.

use vstd::prelude::*;
use crate::error::CoreError;
use crate::formatter::{line_spec, lines_spec, render_spec, spans_shown, StyleSheet};
use crate::span::{is_unclosed, lemma_unclosed_is_literal, spans_of, SpanView};
use crate::text::{
    find_byte, is_blank, is_blank_byte, leading_blanks, lemma_blanks_apart, lemma_find_byte,
    lemma_find_byte_is,
    lemma_leading_blanks_is, lemma_trailing_blanks_is, line_len, line_span, trailing_blanks, trim,
    NEWLINE,
};
use crate::tokenizer::{
    fence_spec, marked_text, page_tokens, prepend, step_spec, tokens_from, StepView, TokenView,
    TokenizerState, CODE_MARKER, HEADING_MARKER, LIST_MARKER, QUOTE_MARKER,
};

verus! {

/// An example of a page: what it does, and the command that does it.
pub struct ExampleView {
    pub description: Seq<u8>,
    pub command: Seq<u8>,
}

/// The contents of a page.
pub struct PageView {
    pub heading: Seq<u8>,
    pub descriptions: Seq<Seq<u8>>,
    pub examples: Seq<ExampleView>,
}

/// Whether `text` can stand on a line after a marker and be read back: it
/// holds no line end and neither begins nor ends with a blank.
pub open spec fn is_line_text(text: Seq<u8>) -> bool {
    !text.contains(NEWLINE) && trim(text) == text
}

/// Whether `command` can stand in a code fence: it does not hold the marker
/// that closes the fence.
pub open spec fn is_command_text(command: Seq<u8>) -> bool {
    !command.contains(CODE_MARKER)
}

impl PageView {
    /// Whether every part of the page can be written in the dialect.
    pub open spec fn is_writable(self) -> bool {
        &&& is_line_text(self.heading)
        &&& forall|i: int| 0 <= i < self.descriptions.len() ==> is_line_text(#[trigger] self.descriptions[i])
        &&& forall|i: int|
            0 <= i < self.examples.len() ==> is_line_text((#[trigger] self.examples[i]).description)
                && is_command_text(self.examples[i].command)
    }
}

/// A line with a marker: the marker, a space, the text and the line end.
pub open spec fn marked_line(marker: u8, text: Seq<u8>) -> Seq<u8> {
    seq![marker, 0x20u8] + text + seq![NEWLINE]
}

/// An empty line.
pub open spec fn blank_line() -> Seq<u8> {
    seq![NEWLINE]
}

/// A command in its fence, on a line of its own.
pub open spec fn fence_line(command: Seq<u8>) -> Seq<u8> {
    seq![CODE_MARKER] + command + seq![CODE_MARKER, NEWLINE]
}

/// The description lines of a page.
pub open spec fn descriptions_text(descriptions: Seq<Seq<u8>>) -> Seq<u8>
    decreases descriptions.len(),
{
    if descriptions.len() == 0 {
        Seq::empty()
    } else {
        marked_line(QUOTE_MARKER, descriptions[0]) + descriptions_text(descriptions.drop_first())
    }
}

/// The lines of one example.
pub open spec fn example_text(example: ExampleView) -> Seq<u8> {
    marked_line(LIST_MARKER, example.description) + (blank_line() + (fence_line(example.command)
        + blank_line()))
}

/// The lines of the examples of a page.
pub open spec fn examples_text(examples: Seq<ExampleView>) -> Seq<u8>
    decreases examples.len(),
{
    if examples.len() == 0 {
        Seq::empty()
    } else {
        example_text(examples[0]) + examples_text(examples.drop_first())
    }
}

/// The text of a page.
pub open spec fn page_text(page: PageView) -> Seq<u8> {
    marked_line(HEADING_MARKER, page.heading) + (blank_line() + (descriptions_text(
        page.descriptions,
    ) + (blank_line() + examples_text(page.examples))))
}

/// The tokens of the description lines of a page.
pub open spec fn descriptions_tokens(descriptions: Seq<Seq<u8>>) -> Seq<TokenView>
    decreases descriptions.len(),
{
    if descriptions.len() == 0 {
        Seq::empty()
    } else {
        seq![TokenView::Description(descriptions[0])] + descriptions_tokens(
            descriptions.drop_first(),
        )
    }
}

/// The tokens of one example.
pub open spec fn example_tokens(example: ExampleView) -> Seq<TokenView> {
    seq![
        TokenView::ExampleDescription(example.description),
        TokenView::Blank,
        TokenView::CommandTemplate(spans_of(example.command)),
        TokenView::Blank,
    ]
}

/// The tokens of the examples of a page.
pub open spec fn examples_tokens(examples: Seq<ExampleView>) -> Seq<TokenView>
    decreases examples.len(),
{
    if examples.len() == 0 {
        Seq::empty()
    } else {
        example_tokens(examples[0]) + examples_tokens(examples.drop_first())
    }
}

/// The tokens of a page.
pub open spec fn tokens_of_page(page: PageView) -> Seq<TokenView> {
    seq![TokenView::Heading(page.heading), TokenView::Blank] + (descriptions_tokens(
        page.descriptions,
    ) + (seq![TokenView::Blank] + examples_tokens(page.examples)))
}

/// The token of a line with a marker.
pub open spec fn marked_token(marker: u8, text: Seq<u8>) -> TokenView {
    if marker == HEADING_MARKER {
        TokenView::Heading(text)
    } else if marker == QUOTE_MARKER {
        TokenView::Description(text)
    } else {
        TokenView::ExampleDescription(text)
    }
}

/// The state after a line with a marker.
pub open spec fn marked_state(marker: u8) -> TokenizerState {
    if marker == LIST_MARKER {
        TokenizerState::ReadingExamples
    } else {
        TokenizerState::ReadingDescription
    }
}

/// Text that is fit for a line comes back from behind a space as it is.
proof fn lemma_trim_after_space(text: Seq<u8>)
    requires
        trim(text) == text,
    ensures
        trim(seq![0x20u8] + text) == text,
{
    let u = seq![0x20u8] + text;
    if text.len() == 0 {
        assert(is_blank(u));
        assert(text =~= Seq::<u8>::empty());
    } else {
        assert(!is_blank(text));
        let lead = leading_blanks(text) as int;
        let trail = trailing_blanks(text) as int;
        lemma_blanks_apart(text);
        assert(text.subrange(lead, text.len() - trail).len() == text.len());
        assert(lead == 0 && trail == 0);
        assert(!is_blank_byte(text[0]));
        assert(!is_blank_byte(text.last()));
        assert(u[1] == text[0]);
        assert(u[u.len() - 1] == text.last());
        lemma_leading_blanks_is(u, 1);
        lemma_trailing_blanks_is(u, 0);
        assert(!is_blank(u));
        assert(u.subrange(1, u.len() as int) =~= text);
    }
}

/// Reading one step and then the rest is reading the whole.
proof fn lemma_read_step(
    state: TokenizerState,
    first: Seq<u8>,
    rest: Seq<u8>,
    next: TokenizerState,
    token: TokenView,
)
    requires
        step_spec(state, first + rest) == Ok::<StepView, CoreError>(
            StepView { state: next, token: Some(token), consumed: first.len() },
        ),
    ensures
        tokens_from(state, first + rest) == prepend(seq![token], tokens_from(next, rest)),
{
    let s = first + rest;
    assert(s.subrange(first.len() as int, s.len() as int) =~= rest);
}

/// Reading a line with a marker gives its token and goes on behind its end.
proof fn lemma_read_marked(state: TokenizerState, marker: u8, text: Seq<u8>, rest: Seq<u8>)
    requires
        is_line_text(text),
        marker == HEADING_MARKER || marker == QUOTE_MARKER || marker == LIST_MARKER,
        !(state is Done),
        state is ReadingHeading ==> marker == HEADING_MARKER,
    ensures
        tokens_from(state, marked_line(marker, text) + rest) == prepend(
            seq![marked_token(marker, text)],
            tokens_from(marked_state(marker), rest),
        ),
{
    let first = marked_line(marker, text);
    let s = first + rest;
    let n = text.len() as int + 2;
    assert forall|i: int| 0 <= i < n implies s[i] != NEWLINE by {
        if i >= 2 {
            assert(s[i] == text[i - 2]);
            assert(text.contains(text[i - 2]));
        }
    }
    assert(s[n] == NEWLINE);
    lemma_find_byte_is(s, NEWLINE, n);
    let line = s.subrange(0, n);
    assert(line[0] == marker);
    assert(!is_blank_byte(line[0]));
    assert(!is_blank(line));
    assert(line.subrange(1, line.len() as int) =~= seq![0x20u8] + text);
    lemma_trim_after_space(text);
    assert(marked_text(line) == text);
    assert(line_span(s) == n + 1);
    assert(first.len() == n + 1);
    lemma_read_step(state, first, rest, marked_state(marker), marked_token(marker, text));
}

/// Reading an empty line gives a blank token and leaves the state as it is.
proof fn lemma_read_blank(state: TokenizerState, rest: Seq<u8>)
    requires
        !(state is Done),
    ensures
        tokens_from(state, blank_line() + rest) == prepend(
            seq![TokenView::Blank],
            tokens_from(state, rest),
        ),
{
    let s = blank_line() + rest;
    assert(s[0] == NEWLINE);
    assert(find_byte(s, NEWLINE) == 0);
    assert(is_blank(s.subrange(0, 0)));
    lemma_read_step(state, blank_line(), rest, state, TokenView::Blank);
}

/// Reading a fence gives the command between its markers.
proof fn lemma_read_fence(state: TokenizerState, command: Seq<u8>, rest: Seq<u8>)
    requires
        is_command_text(command),
        state is ReadingDescription || state is ReadingExamples,
    ensures
        tokens_from(state, fence_line(command) + rest) == prepend(
            seq![TokenView::CommandTemplate(spans_of(command))],
            tokens_from(TokenizerState::ReadingExamples, rest),
        ),
{
    let first = fence_line(command);
    let s = first + rest;
    lemma_find_byte(s, NEWLINE);
    let n = line_len(s) as int;
    assert(s[0] == CODE_MARKER);
    assert(n > 0);
    let line = s.subrange(0, n);
    assert(line[0] == CODE_MARKER);
    assert(!is_blank_byte(line[0]));
    assert(!is_blank(line));
    let inner = s.subrange(1, s.len() as int);
    let c = command.len() as int;
    assert forall|i: int| 0 <= i < c implies inner[i] != CODE_MARKER by {
        assert(inner[i] == command[i]);
        assert(command.contains(command[i]));
    }
    assert(inner[c] == CODE_MARKER);
    lemma_find_byte_is(inner, CODE_MARKER, c);
    let tail = inner.subrange(c + 1, inner.len() as int);
    assert(tail[0] == NEWLINE);
    assert(find_byte(tail, NEWLINE) == 0);
    assert(is_blank(tail.subrange(0, 0)));
    assert(inner.subrange(0, c) =~= command);
    assert(line_span(tail) == 1);
    assert(first.len() == c + 3);
    assert(fence_spec(s) == Ok::<StepView, CoreError>(
        StepView {
            state: TokenizerState::ReadingExamples,
            token: Some(TokenView::CommandTemplate(spans_of(command))),
            consumed: first.len(),
        },
    ));
    lemma_read_step(
        state,
        first,
        rest,
        TokenizerState::ReadingExamples,
        TokenView::CommandTemplate(spans_of(command)),
    );
}

/// Putting tokens before a result in two goes is putting them before it in
/// one.
proof fn lemma_prepend_twice(
    a: Seq<TokenView>,
    b: Seq<TokenView>,
    later: Result<Seq<TokenView>, CoreError>,
)
    ensures
        prepend(a, prepend(b, later)) == prepend(a + b, later),
{
    if later is Ok {
        assert(a + (b + later->Ok_0) =~= (a + b) + later->Ok_0);
    }
}

/// The state after the description lines of a page.
pub open spec fn state_after_descriptions(
    state: TokenizerState,
    descriptions: Seq<Seq<u8>>,
) -> TokenizerState {
    if descriptions.len() == 0 {
        state
    } else {
        TokenizerState::ReadingDescription
    }
}

/// The state after the examples of a page.
pub open spec fn state_after_examples(
    state: TokenizerState,
    examples: Seq<ExampleView>,
) -> TokenizerState {
    if examples.len() == 0 {
        state
    } else {
        TokenizerState::ReadingExamples
    }
}

/// Reading description lines gives their tokens, one for each.
proof fn lemma_read_descriptions(state: TokenizerState, descriptions: Seq<Seq<u8>>, rest: Seq<u8>)
    requires
        state is ReadingDescription || state is ReadingExamples,
        forall|i: int| 0 <= i < descriptions.len() ==> is_line_text(#[trigger] descriptions[i]),
    ensures
        tokens_from(state, descriptions_text(descriptions) + rest) == prepend(
            descriptions_tokens(descriptions),
            tokens_from(state_after_descriptions(state, descriptions), rest),
        ),
    decreases descriptions.len(),
{
    if descriptions.len() == 0 {
        assert(descriptions_text(descriptions) + rest =~= rest);
        let later = tokens_from(state, rest);
        if later is Ok {
            assert(Seq::<TokenView>::empty() + later->Ok_0 =~= later->Ok_0);
        }
    } else {
        let first = marked_line(QUOTE_MARKER, descriptions[0]);
        let others = descriptions.drop_first();
        assert forall|i: int| 0 <= i < others.len() implies is_line_text(#[trigger] others[i]) by {
            assert(others[i] == descriptions[i + 1]);
        }
        let more = descriptions_text(others) + rest;
        assert(descriptions_text(descriptions) + rest =~= first + more);
        lemma_read_marked(state, QUOTE_MARKER, descriptions[0], more);
        lemma_read_descriptions(TokenizerState::ReadingDescription, others, rest);
        lemma_prepend_twice(
            seq![TokenView::Description(descriptions[0])],
            descriptions_tokens(others),
            tokens_from(
                state_after_descriptions(TokenizerState::ReadingDescription, others),
                rest,
            ),
        );
    }
}

/// Reading one example gives its four tokens.
proof fn lemma_read_example(state: TokenizerState, example: ExampleView, rest: Seq<u8>)
    requires
        state is ReadingDescription || state is ReadingExamples,
        is_line_text(example.description),
        is_command_text(example.command),
    ensures
        tokens_from(state, example_text(example) + rest) == prepend(
            example_tokens(example),
            tokens_from(TokenizerState::ReadingExamples, rest),
        ),
{
    let examples = TokenizerState::ReadingExamples;
    let r3 = blank_line() + rest;
    let r2 = fence_line(example.command) + r3;
    let r1 = blank_line() + r2;
    assert(example_text(example) + rest =~= marked_line(LIST_MARKER, example.description) + r1);
    lemma_read_marked(state, LIST_MARKER, example.description, r1);
    lemma_read_blank(examples, r2);
    lemma_read_fence(examples, example.command, r3);
    lemma_read_blank(examples, rest);
    let end = tokens_from(examples, rest);
    let t0 = seq![TokenView::ExampleDescription(example.description)];
    let t1 = seq![TokenView::Blank];
    let t2 = seq![TokenView::CommandTemplate(spans_of(example.command))];
    lemma_prepend_twice(t2, t1, end);
    lemma_prepend_twice(t1, t2 + t1, end);
    lemma_prepend_twice(t0, t1 + (t2 + t1), end);
    assert(t0 + (t1 + (t2 + t1)) =~= example_tokens(example));
}

/// Reading examples gives their tokens, four for each.
proof fn lemma_read_examples(state: TokenizerState, examples: Seq<ExampleView>, rest: Seq<u8>)
    requires
        state is ReadingDescription || state is ReadingExamples,
        forall|i: int|
            0 <= i < examples.len() ==> is_line_text((#[trigger] examples[i]).description)
                && is_command_text(examples[i].command),
    ensures
        tokens_from(state, examples_text(examples) + rest) == prepend(
            examples_tokens(examples),
            tokens_from(state_after_examples(state, examples), rest),
        ),
    decreases examples.len(),
{
    if examples.len() == 0 {
        assert(examples_text(examples) + rest =~= rest);
        let later = tokens_from(state, rest);
        if later is Ok {
            assert(Seq::<TokenView>::empty() + later->Ok_0 =~= later->Ok_0);
        }
    } else {
        let others = examples.drop_first();
        assert forall|i: int| 0 <= i < others.len() implies is_line_text(
            (#[trigger] others[i]).description,
        ) && is_command_text(others[i].command) by {
            assert(others[i] == examples[i + 1]);
        }
        let more = examples_text(others) + rest;
        assert(examples_text(examples) + rest =~= example_text(examples[0]) + more);
        lemma_read_example(state, examples[0], more);
        lemma_read_examples(TokenizerState::ReadingExamples, others, rest);
        lemma_prepend_twice(
            example_tokens(examples[0]),
            examples_tokens(others),
            tokens_from(state_after_examples(TokenizerState::ReadingExamples, others), rest),
        );
    }
}

/// Reading gives back what was written: the tokens of the text of a page are
/// the heading, the descriptions and the examples of the page, each once, in
/// their order, with their text as it was, and blank tokens where the page
/// has empty lines.
pub proof fn lemma_page_round_trip(page: PageView)
    requires
        page.is_writable(),
    ensures
        page_tokens(page_text(page)) == Ok::<Seq<TokenView>, CoreError>(tokens_of_page(page)),
{
    let reading = TokenizerState::ReadingDescription;
    let r4 = examples_text(page.examples);
    let r3 = blank_line() + r4;
    let r2 = descriptions_text(page.descriptions) + r3;
    let r1 = blank_line() + r2;
    lemma_read_marked(TokenizerState::ReadingHeading, HEADING_MARKER, page.heading, r1);
    lemma_read_blank(reading, r2);
    lemma_read_descriptions(reading, page.descriptions, r3);
    let s3 = state_after_descriptions(reading, page.descriptions);
    lemma_read_blank(s3, r4);
    assert(r4 =~= r4 + Seq::<u8>::empty());
    lemma_read_examples(s3, page.examples, Seq::<u8>::empty());
    let s4 = state_after_examples(s3, page.examples);
    let end = tokens_from(s4, Seq::<u8>::empty());
    assert(end == Ok::<Seq<TokenView>, CoreError>(Seq::empty()));
    let t0 = seq![TokenView::Heading(page.heading)];
    let t1 = seq![TokenView::Blank];
    let td = descriptions_tokens(page.descriptions);
    let te = examples_tokens(page.examples);
    assert(prepend(te, end) == Ok::<Seq<TokenView>, CoreError>(te)) by {
        assert(te + Seq::<TokenView>::empty() =~= te);
    }
    let e3 = Ok::<Seq<TokenView>, CoreError>(t1 + te);
    assert(tokens_from(s3, r3) == e3);
    let e2 = Ok::<Seq<TokenView>, CoreError>(td + (t1 + te));
    assert(tokens_from(reading, r2) == e2);
    assert(t0 + (t1 + (td + (t1 + te))) =~= tokens_of_page(page));
}

/// The tokens of the examples of a page stand four apart: the description of
/// the example at `k` is the token at `4 * k`, its command the token two
/// further on. So a page with so many examples has so many of either.
pub proof fn lemma_example_tokens_at(examples: Seq<ExampleView>, k: int)
    requires
        0 <= k < examples.len(),
    ensures
        examples_tokens(examples).len() == 4 * examples.len(),
        examples_tokens(examples)[4 * k] == TokenView::ExampleDescription(examples[k].description),
        examples_tokens(examples)[4 * k + 2] == TokenView::CommandTemplate(
            spans_of(examples[k].command),
        ),
    decreases examples.len(),
{
    let others = examples.drop_first();
    lemma_examples_tokens_len(examples);
    lemma_examples_tokens_len(others);
    if k > 0 {
        lemma_example_tokens_at(others, k - 1);
        assert(others[k - 1] == examples[k]);
    }
}

/// Each example has four tokens.
pub proof fn lemma_examples_tokens_len(examples: Seq<ExampleView>)
    ensures
        examples_tokens(examples).len() == 4 * examples.len(),
    decreases examples.len(),
{
    if examples.len() > 0 {
        lemma_examples_tokens_len(examples.drop_first());
    }
}

/// The description lines of a page have one token each.
pub proof fn lemma_descriptions_tokens_at(descriptions: Seq<Seq<u8>>, i: int)
    requires
        0 <= i < descriptions.len(),
    ensures
        descriptions_tokens(descriptions).len() == descriptions.len(),
        descriptions_tokens(descriptions)[i] == TokenView::Description(descriptions[i]),
    decreases descriptions.len(),
{
    let others = descriptions.drop_first();
    lemma_descriptions_tokens_len(descriptions);
    lemma_descriptions_tokens_len(others);
    if i > 0 {
        lemma_descriptions_tokens_at(others, i - 1);
        assert(others[i - 1] == descriptions[i]);
    }
}

/// There are as many description tokens as description lines.
pub proof fn lemma_descriptions_tokens_len(descriptions: Seq<Seq<u8>>)
    ensures
        descriptions_tokens(descriptions).len() == descriptions.len(),
    decreases descriptions.len(),
{
    if descriptions.len() > 0 {
        lemma_descriptions_tokens_len(descriptions.drop_first());
    }
}

/// Where the parts of a page stand among its tokens: the heading first, the
/// descriptions from the third token on, and the examples behind them, four
/// tokens each. Nothing is left out, nothing comes twice, and nothing changes
/// its place.
pub proof fn lemma_page_tokens_at(page: PageView)
    ensures
        tokens_of_page(page).len() == 3 + page.descriptions.len() + 4 * page.examples.len(),
        tokens_of_page(page)[0] == TokenView::Heading(page.heading),
        forall|i: int|
            0 <= i < page.descriptions.len() ==> (#[trigger] tokens_of_page(page)[2 + i])
                == TokenView::Description(page.descriptions[i]),
        forall|k: int|
            0 <= k < page.examples.len() ==> (#[trigger] tokens_of_page(page)[3
                + page.descriptions.len() + 4 * k]) == TokenView::ExampleDescription(
                page.examples[k].description,
            ),
        forall|k: int|
            0 <= k < page.examples.len() ==> (#[trigger] tokens_of_page(page)[5
                + page.descriptions.len() + 4 * k]) == TokenView::CommandTemplate(
                spans_of(page.examples[k].command),
            ),
{
    let nd = page.descriptions.len() as int;
    lemma_descriptions_tokens_len(page.descriptions);
    lemma_examples_tokens_len(page.examples);
    assert forall|i: int| 0 <= i < nd implies (#[trigger] tokens_of_page(page)[2 + i])
        == TokenView::Description(page.descriptions[i]) by {
        lemma_descriptions_tokens_at(page.descriptions, i);
    }
    assert forall|k: int| 0 <= k < page.examples.len() implies (#[trigger] tokens_of_page(page)[3
        + nd + 4 * k]) == TokenView::ExampleDescription(page.examples[k].description) by {
        lemma_example_tokens_at(page.examples, k);
    }
    assert forall|k: int| 0 <= k < page.examples.len() implies (#[trigger] tokens_of_page(page)[5
        + nd + 4 * k]) == TokenView::CommandTemplate(spans_of(page.examples[k].command)) by {
        lemma_example_tokens_at(page.examples, k);
    }
}

/// What is shown of a page that was written out is the lines of its parts,
/// one line for each token of the page.
pub proof fn lemma_page_is_shown_whole(page: PageView, sheet: StyleSheet, styling_enabled: bool)
    requires
        page.is_writable(),
    ensures
        render_spec(TokenizerState::ReadingHeading, page_text(page), sheet, styling_enabled) == Ok::<
            Seq<Seq<u8>>,
            CoreError,
        >(lines_spec(tokens_of_page(page), sheet, styling_enabled)),
        lines_spec(tokens_of_page(page), sheet, styling_enabled).len() == 3
            + page.descriptions.len() + 4 * page.examples.len(),
{
    lemma_page_round_trip(page);
    lemma_page_tokens_at(page);
}

/// An unclosed placeholder is no fault: a command whose `{{` is never closed
/// is read as one literal span, and is shown as it was written.
pub proof fn lemma_unclosed_is_shown_as_written(
    state: TokenizerState,
    command: Seq<u8>,
    rest: Seq<u8>,
    sheet: StyleSheet,
)
    requires
        state is ReadingDescription || state is ReadingExamples,
        is_command_text(command),
        command.len() > 0,
        is_unclosed(command),
    ensures
        tokens_from(state, fence_line(command) + rest) == prepend(
            seq![TokenView::CommandTemplate(seq![SpanView::Literal(command)])],
            tokens_from(TokenizerState::ReadingExamples, rest),
        ),
        line_spec(TokenView::CommandTemplate(seq![SpanView::Literal(command)]), sheet, false)
            == command,
{
    lemma_read_fence(state, command, rest);
    lemma_unclosed_is_literal(command);
    let spans = seq![SpanView::Literal(command)];
    assert(spans.drop_last() =~= Seq::<SpanView>::empty());
    assert(spans.last() == SpanView::Literal(command));
    let style = sheet.style_of(TokenView::CommandTemplate(spans).kind());
    assert(spans_shown(spans.drop_last(), style, sheet.placeholder, false) == Seq::<u8>::empty());
    assert(Seq::<u8>::empty() + command =~= command);
}

} // verus!
