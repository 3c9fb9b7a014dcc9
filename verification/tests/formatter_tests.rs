use tealdeer::error::{CoreError, FormatFault};
use tealdeer::formatter::{render, render_line, render_next, StyleSheet, TokenKind};
use tealdeer::span::Span;
use tealdeer::style::{Color, TextStyle};
use tealdeer::tokenizer::{LineToken, Tokenizer, TokenizerState};

fn bytes(s: &str) -> Vec<u8> {
    s.as_bytes().to_vec()
}

fn style(foreground: Option<Color>, bold: bool, underline: bool) -> TextStyle {
    TextStyle { foreground, bold, underline }
}

fn sheet() -> StyleSheet {
    StyleSheet {
        heading: style(None, true, false),
        description: style(None, false, false),
        example_description: style(Some(Color::Green), false, false),
        command_template: style(Some(Color::Cyan), false, false),
        placeholder: style(Some(Color::Cyan), false, true),
    }
}

const PAGE: &str = "# tar\n\n> Archiving utility.\n\n- Extract an archive:\n\n`tar xf {{source.tar}}`\n";

#[test]
fn plain_lines_hold_the_text_alone() {
    let mut t = Tokenizer::new(bytes(PAGE));
    let lines = render(&mut t, &sheet(), false).unwrap();
    assert_eq!(
        lines,
        vec![
            bytes("tar"),
            bytes(""),
            bytes("Archiving utility."),
            bytes(""),
            bytes("Extract an archive:"),
            bytes(""),
            bytes("tar xf source.tar"),
        ]
    );
    assert_eq!(t.state(), TokenizerState::Done);
}

#[test]
fn styled_lines_hold_the_codes_of_the_sheet() {
    let mut t = Tokenizer::new(bytes(PAGE));
    let lines = render(&mut t, &sheet(), true).unwrap();
    assert_eq!(
        lines,
        vec![
            bytes("\x1b[1mtar\x1b[0m"),
            bytes(""),
            bytes("Archiving utility."),
            bytes(""),
            bytes("\x1b[32mExtract an archive:\x1b[0m"),
            bytes(""),
            bytes("\x1b[36mtar xf \x1b[0m\x1b[4;36msource.tar\x1b[0m"),
        ]
    );
}

#[test]
fn styled_line_is_what_the_terminal_crate_paints() {
    let token = LineToken::Heading(bytes("tar"));
    let mut s = sheet();
    s.heading = style(Some(Color::Yellow), true, true);
    let expected = ansi_term::Colour::Yellow.bold().underline().paint("tar").to_string();
    assert_eq!(render_line(&token, &s, true), expected.into_bytes());
    assert_eq!(render_line(&token, &s, true), bytes("\x1b[1;4;33mtar\x1b[0m"));
    assert_eq!(render_line(&token, &s, false), bytes("tar"));
}

#[test]
fn every_colour_has_its_digit() {
    let colours = [
        (Color::Black, "30"),
        (Color::Red, "31"),
        (Color::Green, "32"),
        (Color::Yellow, "33"),
        (Color::Blue, "34"),
        (Color::Purple, "35"),
        (Color::Cyan, "36"),
        (Color::White, "37"),
    ];
    for (colour, code) in colours {
        let shown = style(Some(colour), false, false).show(b"x", true);
        assert_eq!(shown, format!("\x1b[{}mx\x1b[0m", code).into_bytes());
    }
}

#[test]
fn codes_come_in_a_fixed_order() {
    assert_eq!(style(None, true, false).show(b"x", true), bytes("\x1b[1mx\x1b[0m"));
    assert_eq!(style(None, false, true).show(b"x", true), bytes("\x1b[4mx\x1b[0m"));
    assert_eq!(style(None, true, true).show(b"x", true), bytes("\x1b[1;4mx\x1b[0m"));
    assert_eq!(style(Some(Color::Red), true, false).show(b"x", true), bytes("\x1b[1;31mx\x1b[0m"));
    assert_eq!(style(Some(Color::Red), false, true).show(b"x", true), bytes("\x1b[4;31mx\x1b[0m"));
    assert_eq!(style(Some(Color::Red), true, true).show(b"", true), bytes("\x1b[1;4;31m\x1b[0m"));
}

#[test]
fn plain_style_adds_no_codes() {
    assert_eq!(TextStyle::plain(), style(None, false, false));
    assert_eq!(TextStyle::plain().show(b"text", true), bytes("text"));
    assert_eq!(TextStyle::plain().show(b"", true), bytes(""));
}

#[test]
fn blank_tokens_are_empty_lines_and_none_is_lost() {
    let mut t = Tokenizer::new(bytes("# x\n\n\n\n> d\n\n"));
    let lines = render(&mut t, &sheet(), true).unwrap();
    assert_eq!(
        lines,
        vec![bytes("\x1b[1mx\x1b[0m"), bytes(""), bytes(""), bytes(""), bytes("d"), bytes("")]
    );
}

#[test]
fn unclosed_placeholder_is_shown_as_it_stands() {
    let mut t = Tokenizer::new(bytes("# x\n`echo {{unclosed`\n"));
    let lines = render(&mut t, &sheet(), false).unwrap();
    assert_eq!(lines, vec![bytes("x"), bytes("echo {{unclosed")]);
    let mut t = Tokenizer::new(bytes("# x\n`echo {{unclosed`\n"));
    let lines = render(&mut t, &sheet(), true).unwrap();
    assert_eq!(lines[1], bytes("\x1b[36mecho {{unclosed\x1b[0m"));
}

#[test]
fn fault_of_the_page_is_the_fault_of_rendering() {
    let mut t = Tokenizer::new(bytes("# x\n`open\n"));
    assert_eq!(
        render(&mut t, &sheet(), true),
        Err(CoreError::FormatError(FormatFault::UnterminatedFence))
    );
    assert_eq!(t.state(), TokenizerState::Done);
}

#[test]
fn lines_come_one_at_a_time() {
    let mut t = Tokenizer::new(bytes("# x\n\nwrong\n"));
    assert_eq!(render_next(&mut t, &sheet(), false), Ok(Some(bytes("x"))));
    assert_eq!(render_next(&mut t, &sheet(), false), Ok(Some(bytes(""))));
    assert_eq!(
        render_next(&mut t, &sheet(), false),
        Err(CoreError::FormatError(FormatFault::UnknownMarker))
    );
    assert_eq!(render_next(&mut t, &sheet(), false), Ok(None));
}

#[test]
fn style_is_looked_up_by_kind() {
    let s = sheet();
    assert_eq!(s.lookup(TokenKind::Heading), s.heading);
    assert_eq!(s.lookup(TokenKind::Description), s.description);
    assert_eq!(s.lookup(TokenKind::ExampleDescription), s.example_description);
    assert_eq!(s.lookup(TokenKind::CommandTemplate), s.command_template);
    assert_eq!(s.lookup(TokenKind::Blank), TextStyle::plain());
    assert_eq!(LineToken::Blank.kind(), TokenKind::Blank);
    assert_eq!(LineToken::Heading(Vec::new()).kind(), TokenKind::Heading);
    assert_eq!(LineToken::Description(Vec::new()).kind(), TokenKind::Description);
    assert_eq!(LineToken::ExampleDescription(Vec::new()).kind(), TokenKind::ExampleDescription);
    assert_eq!(LineToken::CommandTemplate(Vec::new()).kind(), TokenKind::CommandTemplate);
}

#[test]
fn spans_are_shown_without_braces() {
    let token = LineToken::CommandTemplate(vec![
        Span::Placeholder(bytes("a")),
        Span::Literal(bytes(" to ")),
        Span::Placeholder(bytes("b")),
    ]);
    assert_eq!(render_line(&token, &sheet(), false), bytes("a to b"));
    assert_eq!(
        render_line(&token, &sheet(), true),
        bytes("\x1b[4;36ma\x1b[0m\x1b[36m to \x1b[0m\x1b[4;36mb\x1b[0m")
    );
}

fn strip(line: &[u8]) -> Vec<u8> {
    let mut out = Vec::new();
    let mut i = 0;
    while i < line.len() {
        if line[i] == 0x1b {
            while i < line.len() && line[i] != b'm' {
                i += 1;
            }
            i += 1;
        } else {
            out.push(line[i]);
            i += 1;
        }
    }
    out
}

#[test]
fn styling_changes_the_codes_and_not_the_text() {
    let mut styled = Tokenizer::new(bytes(PAGE));
    let mut plain = Tokenizer::new(bytes(PAGE));
    let with = render(&mut styled, &sheet(), true).unwrap();
    let without = render(&mut plain, &sheet(), false).unwrap();
    assert_eq!(with.len(), without.len());
    for (a, b) in with.iter().zip(without.iter()) {
        assert_eq!(&strip(a), b);
    }
}

#[test]
fn page_with_three_examples_keeps_them_in_order() {
    let page = "# cp\n\n> Copy files.\n> And directories.\n\n- One:\n\n`cp {{a}} {{b}}`\n\n- Two:\n\n`cp -r {{a}} {{b}}`\n\n- Three:\n\n`cp -v {{a}} {{b}}`\n\n";
    let mut t = Tokenizer::new(bytes(page));
    let lines = render(&mut t, &sheet(), false).unwrap();
    assert_eq!(
        lines,
        vec![
            bytes("cp"),
            bytes(""),
            bytes("Copy files."),
            bytes("And directories."),
            bytes(""),
            bytes("One:"),
            bytes(""),
            bytes("cp a b"),
            bytes(""),
            bytes("Two:"),
            bytes(""),
            bytes("cp -r a b"),
            bytes(""),
            bytes("Three:"),
            bytes(""),
            bytes("cp -v a b"),
            bytes(""),
        ]
    );
}
