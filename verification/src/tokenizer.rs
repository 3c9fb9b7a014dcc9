//! The tokenizer: from the text of a page to its lines, one token each.
//!
//! A page is read line by line. The first byte of a line says what the line
//! is: `#` a heading, `>` a description, `-` the description of an example,
//! and a backtick opens a code fence with a command template in it. The fence
//! runs to the next backtick, wherever that is; line ends inside it belong to
//! the template. A line of blanks is a token of its own.

use vstd::prelude::*;
use vstd::slice::slice_subrange;
use crate::error::{CoreError, FormatFault};
use crate::span::{parse_spans, spans_of, spans_view, Span, SpanView};
use crate::text::{
    blank_range, find_byte, find_from, is_blank, lemma_find_byte, line_len, line_span, trim,
    trimmed_range, NEWLINE,
};

verus! {

/// A heading line begins with this byte.
pub const HEADING_MARKER: u8 = 0x23;

/// A description line begins with this byte.
pub const QUOTE_MARKER: u8 = 0x3e;

/// The description of an example begins with this byte.
pub const LIST_MARKER: u8 = 0x2d;

/// A code fence begins and ends with this byte.
pub const CODE_MARKER: u8 = 0x60;

/// One line of a page.
#[derive(Debug, Clone, PartialEq, Eq)]
pub enum LineToken {
    /// The name of the command.
    Heading(Vec<u8>),
    /// A line that says what the command does.
    Description(Vec<u8>),
    /// A line that says what the example after it does.
    ExampleDescription(Vec<u8>),
    /// An example: a command with placeholders.
    CommandTemplate(Vec<Span>),
    /// A line with nothing but blanks on it.
    Blank,
}

/// What a [`LineToken`] holds, as a mathematical value.
pub enum TokenView {
    Heading(Seq<u8>),
    Description(Seq<u8>),
    ExampleDescription(Seq<u8>),
    CommandTemplate(Seq<SpanView>),
    Blank,
}

impl View for LineToken {
    type V = TokenView;

    open spec fn view(&self) -> TokenView {
        match self {
            LineToken::Heading(t) => TokenView::Heading(t@),
            LineToken::Description(t) => TokenView::Description(t@),
            LineToken::ExampleDescription(t) => TokenView::ExampleDescription(t@),
            LineToken::CommandTemplate(spans) => TokenView::CommandTemplate(spans_view(spans@)),
            LineToken::Blank => TokenView::Blank,
        }
    }
}

/// The views of a sequence of tokens.
pub open spec fn tokens_view(tokens: Seq<LineToken>) -> Seq<TokenView> {
    Seq::new(tokens.len(), |i: int| tokens[i]@)
}

/// The view of a token that may be missing.
pub open spec fn token_option_view(token: Option<LineToken>) -> Option<TokenView> {
    match token {
        Some(t) => Some(t@),
        None => None,
    }
}

/// Where the tokenizer stands in a page.
#[derive(Debug, Clone, Copy, PartialEq, Eq, Structural)]
pub enum TokenizerState {
    /// Nothing but blank lines has been read yet.
    ReadingHeading,
    /// The last line that was not blank was a heading or a description.
    ReadingDescription,
    /// The last line that was not blank belonged to an example.
    ReadingExamples,
    /// The input is used up, or it was refused.
    Done,
}

/// What one transition does.
pub struct Step {
    /// The state after it.
    pub state: TokenizerState,
    /// The token that it read; `None` at the end of the input.
    pub token: Option<LineToken>,
    /// The number of bytes that it took from the input.
    pub consumed: usize,
}

/// What a [`Step`] holds, as a mathematical value.
pub struct StepView {
    pub state: TokenizerState,
    pub token: Option<TokenView>,
    pub consumed: nat,
}

impl View for Step {
    type V = StepView;

    open spec fn view(&self) -> StepView {
        StepView {
            state: self.state,
            token: token_option_view(self.token),
            consumed: self.consumed as nat,
        }
    }
}

/// The view of the outcome of a transition.
pub open spec fn step_result_view(r: Result<Step, CoreError>) -> Result<StepView, CoreError> {
    match r {
        Ok(step) => Ok(step@),
        Err(e) => Err(e),
    }
}

/// The text of a line that begins with a marker: what follows the marker,
/// without the blanks at either end.
pub open spec fn marked_text(line: Seq<u8>) -> Seq<u8> {
    trim(line.subrange(1, line.len() as int))
}

/// The transition on input that begins with the code marker.
///
/// The template is what stands between that marker and the next one. After the
/// closing marker only blanks may follow on its line, and the line is taken
/// with the fence.
pub open spec fn fence_spec(rest: Seq<u8>) -> Result<StepView, CoreError> {
    let inner = rest.subrange(1, rest.len() as int);
    let close = find_byte(inner, CODE_MARKER) as int;
    let tail = inner.subrange(close + 1, inner.len() as int);
    if close >= inner.len() {
        Err(CoreError::FormatError(FormatFault::UnterminatedFence))
    } else if !is_blank(tail.subrange(0, line_len(tail) as int)) {
        Err(CoreError::FormatError(FormatFault::TrailingText))
    } else {
        Ok(
            StepView {
                state: TokenizerState::ReadingExamples,
                token: Some(TokenView::CommandTemplate(spans_of(inner.subrange(0, close)))),
                consumed: (close + 2 + line_span(tail)) as nat,
            },
        )
    }
}

/// The transition function: from a state and the input that is left to the
/// next state, the token read and the number of bytes taken.
///
/// At the end of the input, and in `Done`, there is no token and the next state
/// is `Done`. A blank line is a `Blank` token and leaves the state as it is.
/// Before the heading only a heading is accepted. Every other line goes by its
/// first byte, and a line with no marker is refused.
pub open spec fn step_spec(state: TokenizerState, rest: Seq<u8>) -> Result<StepView, CoreError> {
    let line = rest.subrange(0, line_len(rest) as int);
    if state is Done || rest.len() == 0 {
        Ok(StepView { state: TokenizerState::Done, token: None, consumed: 0 })
    } else if is_blank(line) {
        Ok(StepView { state, token: Some(TokenView::Blank), consumed: line_span(rest) })
    } else if line[0] == HEADING_MARKER {
        Ok(
            StepView {
                state: TokenizerState::ReadingDescription,
                token: Some(TokenView::Heading(marked_text(line))),
                consumed: line_span(rest),
            },
        )
    } else if state is ReadingHeading {
        Err(CoreError::FormatError(FormatFault::MissingHeading))
    } else if line[0] == QUOTE_MARKER {
        Ok(
            StepView {
                state: TokenizerState::ReadingDescription,
                token: Some(TokenView::Description(marked_text(line))),
                consumed: line_span(rest),
            },
        )
    } else if line[0] == LIST_MARKER {
        Ok(
            StepView {
                state: TokenizerState::ReadingExamples,
                token: Some(TokenView::ExampleDescription(marked_text(line))),
                consumed: line_span(rest),
            },
        )
    } else if line[0] == CODE_MARKER {
        fence_spec(rest)
    } else {
        Err(CoreError::FormatError(FormatFault::UnknownMarker))
    }
}

/// A transition never takes more than there is, and takes something whenever
/// it reads a token.
pub proof fn lemma_step_consumes(state: TokenizerState, rest: Seq<u8>)
    ensures
        step_spec(state, rest) matches Ok(step) ==> step.consumed <= rest.len() && (step.token is Some
            ==> step.consumed > 0) && (step.token is None <==> step.state is Done),
{
    lemma_find_byte(rest, NEWLINE);
    if rest.len() > 0 {
        let inner = rest.subrange(1, rest.len() as int);
        lemma_find_byte(inner, CODE_MARKER);
        let close = find_byte(inner, CODE_MARKER) as int;
        if close < inner.len() {
            lemma_find_byte(inner.subrange(close + 1, inner.len() as int), NEWLINE);
        }
    }
}

/// What a page is worth from a given state on: the tokens of all its lines in
/// their order, or the fault that the first line in breach of the dialect gives.
pub open spec fn tokens_from(state: TokenizerState, rest: Seq<u8>) -> Result<
    Seq<TokenView>,
    CoreError,
>
    decreases rest.len(),
{
    match step_spec(state, rest) {
        Err(e) => Err(e),
        Ok(step) => match step.token {
            None => Ok(Seq::empty()),
            Some(token) => {
                proof {
                    lemma_step_consumes(state, rest);
                }
                prepend(
                    seq![token],
                    tokens_from(step.state, rest.subrange(step.consumed as int, rest.len() as int)),
                )
            },
        },
    }
}

/// `later` with `first` put before it, where `later` is no fault.
pub open spec fn prepend(first: Seq<TokenView>, later: Result<Seq<TokenView>, CoreError>) -> Result<
    Seq<TokenView>,
    CoreError,
> {
    match later {
        Ok(tokens) => Ok(first + tokens),
        Err(e) => Err(e),
    }
}

/// The tokens of a whole page.
pub open spec fn page_tokens(page: Seq<u8>) -> Result<Seq<TokenView>, CoreError> {
    tokens_from(TokenizerState::ReadingHeading, page)
}

/// The view of the outcome of reading a page.
pub open spec fn tokens_result_view(r: Result<Vec<LineToken>, CoreError>) -> Result<
    Seq<TokenView>,
    CoreError,
> {
    match r {
        Ok(tokens) => Ok(tokens_view(tokens@)),
        Err(e) => Err(e),
    }
}

/// The transition on input that begins with the code marker.
fn fence_step(rest: &[u8]) -> (r: Result<Step, CoreError>)
    requires
        rest@.len() > 0,
    ensures
        step_result_view(r) == fence_spec(rest@),
{
    let len = rest.len();
    let ghost inner = rest@.subrange(1, len as int);
    let close = find_from(rest, 1, CODE_MARKER);
    if close >= len {
        return Err(CoreError::FormatError(FormatFault::UnterminatedFence));
    }
    let ghost tail = inner.subrange(close as int, inner.len() as int);
    let tail_end = find_from(rest, close + 1, NEWLINE);
    proof {
        assert(tail == rest@.subrange(close + 1, len as int));
        assert(tail.subrange(0, line_len(tail) as int) == rest@.subrange(
            close + 1,
            tail_end as int,
        ));
        assert(inner.subrange(0, close - 1) == rest@.subrange(1, close as int));
    }
    if !blank_range(rest, close + 1, tail_end) {
        return Err(CoreError::FormatError(FormatFault::TrailingText));
    }
    let consumed: usize = if tail_end < len {
        tail_end + 1
    } else {
        len
    };
    let spans = parse_spans(rest, 1, close);
    Ok(
        Step {
            state: TokenizerState::ReadingExamples,
            token: Some(LineToken::CommandTemplate(spans)),
            consumed,
        },
    )
}

/// One transition of the tokenizer, on the input that is left.
pub fn step(state: TokenizerState, rest: &[u8]) -> (r: Result<Step, CoreError>)
    ensures
        step_result_view(r) == step_spec(state, rest@),
{
    let len = rest.len();
    if state == TokenizerState::Done || len == 0 {
        return Ok(Step { state: TokenizerState::Done, token: None, consumed: 0 });
    }
    let end = find_from(rest, 0, NEWLINE);
    let ghost line = rest@.subrange(0, end as int);
    proof {
        assert(rest@.subrange(0, len as int) == rest@);
    }
    let consumed: usize = if end < len {
        end + 1
    } else {
        len
    };
    if blank_range(rest, 0, end) {
        return Ok(Step { state, token: Some(LineToken::Blank), consumed });
    }
    proof {
        if end == 0 {
            assert(is_blank(line));
        }
        assert(line[0] == rest@[0]);
        assert(line.subrange(1, line.len() as int) == rest@.subrange(1, end as int));
    }
    let marker = rest[0];
    if marker == HEADING_MARKER {
        let text = trimmed_range(rest, 1, end);
        Ok(
            Step {
                state: TokenizerState::ReadingDescription,
                token: Some(LineToken::Heading(text)),
                consumed,
            },
        )
    } else if state == TokenizerState::ReadingHeading {
        Err(CoreError::FormatError(FormatFault::MissingHeading))
    } else if marker == QUOTE_MARKER {
        let text = trimmed_range(rest, 1, end);
        Ok(
            Step {
                state: TokenizerState::ReadingDescription,
                token: Some(LineToken::Description(text)),
                consumed,
            },
        )
    } else if marker == LIST_MARKER {
        let text = trimmed_range(rest, 1, end);
        Ok(
            Step {
                state: TokenizerState::ReadingExamples,
                token: Some(LineToken::ExampleDescription(text)),
                consumed,
            },
        )
    } else if marker == CODE_MARKER {
        fence_step(rest)
    } else {
        Err(CoreError::FormatError(FormatFault::UnknownMarker))
    }
}

/// A reader that hands out the tokens of one page, one at a time and once.
pub struct Tokenizer {
    input: Vec<u8>,
    pos: usize,
    state: TokenizerState,
}

impl Tokenizer {
    #[verifier::type_invariant]
    spec fn in_bounds(self) -> bool {
        self.pos <= self.input@.len() && (self.state is Done ==> self.pos == self.input@.len())
    }

    /// The input that has not been read yet.
    pub closed spec fn remaining(&self) -> Seq<u8> {
        self.input@.subrange(self.pos as int, self.input@.len() as int)
    }

    /// The state that the tokenizer is in.
    pub closed spec fn state_view(&self) -> TokenizerState {
        self.state
    }

    /// A tokenizer at the start of `input`.
    pub fn new(input: Vec<u8>) -> (t: Tokenizer)
        ensures
            t.state_view() == TokenizerState::ReadingHeading,
            t.remaining() == input@,
    {
        let t = Tokenizer { input, pos: 0, state: TokenizerState::ReadingHeading };
        assert(t.input@.subrange(0, t.input@.len() as int) == t.input@);
        t
    }

    /// The state that the tokenizer is in.
    pub fn state(&self) -> (s: TokenizerState)
        ensures
            s == self.state_view(),
    {
        self.state
    }

    /// Reads the next token.
    ///
    /// `Ok(None)` says that the input is used up. After that, and after a
    /// fault, the tokenizer is `Done` and hands out nothing more.
    pub fn next_token(&mut self) -> (r: Result<Option<LineToken>, CoreError>)
        ensures
            match step_spec(old(self).state_view(), old(self).remaining()) {
                Ok(step) => r matches Ok(token) && token_option_view(token) == step.token
                    && final(self).state_view() == step.state && final(self).remaining() == old(
                    self,
                ).remaining().subrange(step.consumed as int, old(self).remaining().len() as int),
                Err(e) => r == Err::<Option<LineToken>, CoreError>(e) && final(self).state_view()
                    == TokenizerState::Done && final(self).remaining().len() == 0,
            },
    {
        proof {
            use_type_invariant(&*self);
        }
        let len = self.input.len();
        let rest = slice_subrange(self.input.as_slice(), self.pos, len);
        proof {
            lemma_step_consumes(self.state, rest@);
        }
        match step(self.state, rest) {
            Ok(found) => {
                let ghost before = self.remaining();
                self.pos = self.pos + found.consumed;
                self.state = found.state;
                proof {
                    assert(self.remaining() == before.subrange(
                        found.consumed as int,
                        before.len() as int,
                    ));
                }
                Ok(found.token)
            },
            Err(e) => {
                self.pos = len;
                self.state = TokenizerState::Done;
                Err(e)
            },
        }
    }

    /// Reads all the tokens that are left.
    pub fn collect(&mut self) -> (r: Result<Vec<LineToken>, CoreError>)
        ensures
            tokens_result_view(r) == tokens_from(old(self).state_view(), old(self).remaining()),
            final(self).state_view() == TokenizerState::Done,
            final(self).remaining().len() == 0,
    {
        let mut out: Vec<LineToken> = Vec::new();
        loop
            invariant
                tokens_from(old(self).state_view(), old(self).remaining()) == prepend(
                    tokens_view(out@),
                    tokens_from(self.state_view(), self.remaining()),
                ),
            decreases self.remaining().len(),
        {
            let ghost before = tokens_view(out@);
            let ghost rest = self.remaining();
            proof {
                lemma_step_consumes(self.state_view(), rest);
            }
            match self.next_token() {
                Err(e) => {
                    return Err(e);
                },
                Ok(None) => {
                    proof {
                        assert(before + Seq::<TokenView>::empty() == before);
                        use_type_invariant(&*self);
                    }
                    return Ok(out);
                },
                Ok(Some(token)) => {
                    out.push(token);
                    proof {
                        let later = tokens_from(self.state_view(), self.remaining());
                        assert(tokens_view(out@) == before + seq![token@]);
                        if later is Ok {
                            assert(before + (seq![token@] + later->Ok_0) == (before + seq![
                                token@,
                            ]) + later->Ok_0);
                        }
                    }
                },
            }
        }
    }
}

/// Reads a whole page.
pub fn tokenize(page: Vec<u8>) -> (r: Result<Vec<LineToken>, CoreError>)
    ensures
        tokens_result_view(r) == page_tokens(page@),
{
    let mut tokenizer = Tokenizer::new(page);
    tokenizer.collect()
}

/// Reading comes to an end: every token takes at least one byte of the input,
/// so a page has no more tokens than bytes.
pub proof fn lemma_tokens_are_bounded(state: TokenizerState, rest: Seq<u8>)
    ensures
        tokens_from(state, rest) matches Ok(tokens) ==> tokens.len() <= rest.len(),
    decreases rest.len(),
{
    lemma_step_consumes(state, rest);
    if let Ok(step) = step_spec(state, rest) {
        if step.token is Some {
            lemma_tokens_are_bounded(
                step.state,
                rest.subrange(step.consumed as int, rest.len() as int),
            );
        }
    }
}

/// Nothing is read twice: in `Done` there is no token and no way out,
/// whatever input is offered.
pub proof fn lemma_done_is_final(rest: Seq<u8>)
    ensures
        step_spec(TokenizerState::Done, rest) == Ok::<StepView, CoreError>(
            StepView { state: TokenizerState::Done, token: None, consumed: 0 },
        ),
        tokens_from(TokenizerState::Done, rest) == Ok::<Seq<TokenView>, CoreError>(Seq::empty()),
{
}

} // verus!
