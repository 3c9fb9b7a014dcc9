use tealdeer::error::{CoreError, FormatFault};
use tealdeer::span::{find_pair_in, parse_spans, parse_template, Span};
use tealdeer::tokenizer::{step, tokenize, LineToken, Tokenizer, TokenizerState};

fn bytes(s: &str) -> Vec<u8> {
    s.as_bytes().to_vec()
}

fn spans(s: &str) -> Vec<Span> {
    parse_template(s.as_bytes())
}

#[test]
fn page_is_read_line_by_line() {
    let page = "# tar\n\n> Archiving utility.\n\n- Extract an archive:\n\n`tar xf {{source.tar}}`\n";
    let tokens = tokenize(bytes(page)).unwrap();
    assert_eq!(
        tokens,
        vec![
            LineToken::Heading(bytes("tar")),
            LineToken::Blank,
            LineToken::Description(bytes("Archiving utility.")),
            LineToken::Blank,
            LineToken::ExampleDescription(bytes("Extract an archive:")),
            LineToken::Blank,
            LineToken::CommandTemplate(vec![
                Span::Literal(bytes("tar xf ")),
                Span::Placeholder(bytes("source.tar")),
            ]),
        ]
    );
}

#[test]
fn empty_page_has_no_tokens() {
    assert_eq!(tokenize(Vec::new()), Ok(Vec::new()));
}

#[test]
fn blank_lines_before_the_heading_are_tokens() {
    assert_eq!(
        tokenize(bytes("\n \t\r\n# x")),
        Ok(vec![LineToken::Blank, LineToken::Blank, LineToken::Heading(bytes("x"))])
    );
}

#[test]
fn first_line_must_be_a_heading() {
    assert_eq!(
        tokenize(bytes("\n> no heading\n")),
        Err(CoreError::FormatError(FormatFault::MissingHeading))
    );
    assert_eq!(
        tokenize(bytes("`tar`\n")),
        Err(CoreError::FormatError(FormatFault::MissingHeading))
    );
}

#[test]
fn line_without_marker_is_a_fault() {
    assert_eq!(
        tokenize(bytes("# x\nplain words\n")),
        Err(CoreError::FormatError(FormatFault::UnknownMarker))
    );
    assert_eq!(
        tokenize(bytes("# x\n  > indented\n")),
        Err(CoreError::FormatError(FormatFault::UnknownMarker))
    );
}

#[test]
fn open_fence_at_the_end_is_a_fault() {
    assert_eq!(
        tokenize(bytes("# x\n`tar xf\n\n")),
        Err(CoreError::FormatError(FormatFault::UnterminatedFence))
    );
    assert_eq!(
        tokenize(bytes("# x\n`")),
        Err(CoreError::FormatError(FormatFault::UnterminatedFence))
    );
}

#[test]
fn text_after_a_fence_is_a_fault() {
    assert_eq!(
        tokenize(bytes("# x\n`tar` and more\n")),
        Err(CoreError::FormatError(FormatFault::TrailingText))
    );
}

#[test]
fn blanks_after_a_fence_are_taken_with_it() {
    assert_eq!(
        tokenize(bytes("# x\n`tar` \t\r\n- next\n")),
        Ok(vec![
            LineToken::Heading(bytes("x")),
            LineToken::CommandTemplate(vec![Span::Literal(bytes("tar"))]),
            LineToken::ExampleDescription(bytes("next")),
        ])
    );
}

#[test]
fn fence_may_run_over_lines() {
    assert_eq!(
        tokenize(bytes("# x\n`a\n\nb`\n> d\n")),
        Ok(vec![
            LineToken::Heading(bytes("x")),
            LineToken::CommandTemplate(vec![Span::Literal(bytes("a\n\nb"))]),
            LineToken::Description(bytes("d")),
        ])
    );
}

#[test]
fn empty_fence_has_no_spans() {
    assert_eq!(
        tokenize(bytes("# x\n``\n")),
        Ok(vec![LineToken::Heading(bytes("x")), LineToken::CommandTemplate(Vec::new())])
    );
}

#[test]
fn text_of_a_line_is_trimmed() {
    assert_eq!(
        tokenize(bytes("#   tar  \r\n>\tfast \n-list\n")),
        Ok(vec![
            LineToken::Heading(bytes("tar")),
            LineToken::Description(bytes("fast")),
            LineToken::ExampleDescription(bytes("list")),
        ])
    );
    assert_eq!(tokenize(bytes("#")), Ok(vec![LineToken::Heading(Vec::new())]));
}

#[test]
fn tokenizer_ends_in_done() {
    let mut t = Tokenizer::new(bytes("# x\n"));
    assert_eq!(t.state(), TokenizerState::ReadingHeading);
    assert_eq!(t.next_token(), Ok(Some(LineToken::Heading(bytes("x")))));
    assert_eq!(t.state(), TokenizerState::ReadingDescription);
    assert_eq!(t.next_token(), Ok(None));
    assert_eq!(t.state(), TokenizerState::Done);
    assert_eq!(t.next_token(), Ok(None));
    assert_eq!(t.state(), TokenizerState::Done);
}

#[test]
fn tokenizer_is_done_after_a_fault() {
    let mut t = Tokenizer::new(bytes("# x\noops\n> d\n"));
    assert_eq!(t.next_token(), Ok(Some(LineToken::Heading(bytes("x")))));
    assert_eq!(t.next_token(), Err(CoreError::FormatError(FormatFault::UnknownMarker)));
    assert_eq!(t.state(), TokenizerState::Done);
    assert_eq!(t.next_token(), Ok(None));
}

#[test]
fn states_follow_the_markers() {
    let mut t = Tokenizer::new(bytes("\n# x\n\n> d\n- e\n\n`c`\n> d\n# y\n"));
    let mut states = Vec::new();
    while let Ok(Some(_)) = t.next_token() {
        states.push(t.state());
    }
    assert_eq!(
        states,
        vec![
            TokenizerState::ReadingHeading,
            TokenizerState::ReadingDescription,
            TokenizerState::ReadingDescription,
            TokenizerState::ReadingDescription,
            TokenizerState::ReadingExamples,
            TokenizerState::ReadingExamples,
            TokenizerState::ReadingExamples,
            TokenizerState::ReadingDescription,
            TokenizerState::ReadingDescription,
        ]
    );
    assert_eq!(t.state(), TokenizerState::Done);
}

#[test]
fn step_counts_the_bytes_it_takes() {
    let s = step(TokenizerState::ReadingDescription, b"> a\n> b\n").unwrap();
    assert_eq!(s.consumed, 4);
    assert_eq!(s.state, TokenizerState::ReadingDescription);
    assert_eq!(s.token, Some(LineToken::Description(bytes("a"))));
    let s = step(TokenizerState::ReadingExamples, b"`a\nb` \nrest").unwrap();
    assert_eq!(s.consumed, 7);
    assert_eq!(s.state, TokenizerState::ReadingExamples);
    let s = step(TokenizerState::ReadingExamples, b"- last").unwrap();
    assert_eq!(s.consumed, 6);
}

#[test]
fn step_in_done_reads_nothing() {
    let s = step(TokenizerState::Done, b"# x\n").unwrap();
    assert_eq!(s.consumed, 0);
    assert_eq!(s.state, TokenizerState::Done);
    assert_eq!(s.token, None);
    let s = step(TokenizerState::ReadingExamples, b"").unwrap();
    assert_eq!(s.state, TokenizerState::Done);
    assert_eq!(s.token, None);
}

#[test]
fn collect_reads_what_is_left() {
    let mut t = Tokenizer::new(bytes("# x\n> d\n"));
    assert_eq!(t.next_token(), Ok(Some(LineToken::Heading(bytes("x")))));
    assert_eq!(t.collect(), Ok(vec![LineToken::Description(bytes("d"))]));
    assert_eq!(t.state(), TokenizerState::Done);
}

#[test]
fn placeholders_are_spans_of_their_own() {
    assert_eq!(
        spans("tar cf {{target.tar}} {{file1}}"),
        vec![
            Span::Literal(bytes("tar cf ")),
            Span::Placeholder(bytes("target.tar")),
            Span::Literal(bytes(" ")),
            Span::Placeholder(bytes("file1")),
        ]
    );
    assert_eq!(spans("{{a}}{{b}}"), vec![Span::Placeholder(bytes("a")), Span::Placeholder(bytes("b"))]);
    assert_eq!(spans("{{}}"), vec![Span::Placeholder(Vec::new())]);
    assert_eq!(spans(""), Vec::new());
}

#[test]
fn unclosed_placeholder_is_literal_text() {
    assert_eq!(spans("echo {{unclosed"), vec![Span::Literal(bytes("echo {{unclosed"))]);
    assert_eq!(
        spans("{{a}} and {{unclosed }"),
        vec![Span::Placeholder(bytes("a")), Span::Literal(bytes(" and {{unclosed }"))]
    );
    assert_eq!(spans("closed }} only"), vec![Span::Literal(bytes("closed }} only"))]);
    assert_eq!(
        tokenize(bytes("# x\n`echo {{unclosed`\n")),
        Ok(vec![
            LineToken::Heading(bytes("x")),
            LineToken::CommandTemplate(vec![Span::Literal(bytes("echo {{unclosed"))]),
        ])
    );
}

#[test]
fn placeholder_runs_to_the_first_closing_braces() {
    assert_eq!(
        spans("{{a{{b}}c}}"),
        vec![Span::Placeholder(bytes("a{{b")), Span::Literal(bytes("c}}"))]
    );
    assert_eq!(spans("{{{a}}}"), vec![Span::Placeholder(bytes("{a")), Span::Literal(bytes("}"))]);
}

#[test]
fn spans_of_a_part_of_the_input() {
    assert_eq!(
        parse_spans(b"xx{{a}}yy", 2, 7),
        vec![Span::Placeholder(bytes("a"))]
    );
}

#[test]
fn doubled_byte_is_found_within_its_range() {
    assert_eq!(find_pair_in(b"a{{b{{", 0, 6, b'{'), 1);
    assert_eq!(find_pair_in(b"a{{b{{", 2, 6, b'{'), 4);
    assert_eq!(find_pair_in(b"a{{b{{", 2, 5, b'{'), 5);
    assert_eq!(find_pair_in(b"a{b{", 0, 4, b'{'), 4);
    assert_eq!(find_pair_in(b"{{{", 0, 3, b'{'), 0);
    assert_eq!(find_pair_in(b"", 0, 0, b'{'), 0);
}
