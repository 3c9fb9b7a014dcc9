//! Text styles and the terminal codes that carry them.

use ansi_term::{Colour, Style};
use vstd::prelude::*;
use crate::text::{copy_range, find_byte, lemma_find_byte, lemma_find_byte_is};

verus! {

/// The eight colours that every terminal knows.
#[derive(Debug, Clone, Copy, PartialEq, Eq, Structural)]
pub enum Color {
    Black,
    Red,
    Green,
    Yellow,
    Blue,
    Purple,
    Cyan,
    White,
}

impl Color {
    /// The digit that names the colour in a terminal code, as a byte.
    pub open spec fn digit(self) -> u8 {
        match self {
            Color::Black => 0x30,
            Color::Red => 0x31,
            Color::Green => 0x32,
            Color::Yellow => 0x33,
            Color::Blue => 0x34,
            Color::Purple => 0x35,
            Color::Cyan => 0x36,
            Color::White => 0x37,
        }
    }
}

/// How a piece of text is to look.
#[derive(Debug, Clone, Copy, PartialEq, Eq, Structural)]
pub struct TextStyle {
    /// The colour of the letters; `None` leaves the terminal's own.
    pub foreground: Option<Color>,
    pub bold: bool,
    pub underline: bool,
}

impl TextStyle {
    /// Whether the style changes nothing.
    pub open spec fn is_plain(self) -> bool {
        self.foreground is None && !self.bold && !self.underline
    }

    /// The codes of the style: `1` for bold, `4` for underline, `3` and the
    /// colour's digit for the foreground, in that order, with `;` between them.
    pub open spec fn codes(self) -> Seq<u8> {
        let bold = if self.bold {
            seq![0x31u8]
        } else {
            Seq::empty()
        };
        let underline = if !self.underline {
            Seq::empty()
        } else if self.bold {
            seq![0x3bu8, 0x34u8]
        } else {
            seq![0x34u8]
        };
        let foreground = match self.foreground {
            None => Seq::empty(),
            Some(c) => if self.bold || self.underline {
                seq![0x3bu8, 0x33u8, c.digit()]
            } else {
                seq![0x33u8, c.digit()]
            },
        };
        bold + underline + foreground
    }

    /// The bytes that switch a terminal to the style: nothing for a plain
    /// style, else escape, `[`, the codes and `m`.
    pub open spec fn prefix(self) -> Seq<u8> {
        if self.is_plain() {
            Seq::empty()
        } else {
            seq![0x1bu8, 0x5bu8] + self.codes() + seq![0x6du8]
        }
    }

    /// The bytes that switch a terminal back: nothing for a plain style, else
    /// escape and `[0m`.
    pub open spec fn suffix(self) -> Seq<u8> {
        if self.is_plain() {
            Seq::empty()
        } else {
            seq![0x1bu8, 0x5bu8, 0x30u8, 0x6du8]
        }
    }

    /// `text` in the style: between the prefix and the suffix, itself unchanged.
    pub open spec fn painted(self, text: Seq<u8>) -> Seq<u8> {
        self.prefix() + text + self.suffix()
    }

    /// `text` as it is shown: painted where styling is on, bare where it is off.
    pub open spec fn shown(self, text: Seq<u8>, styling_enabled: bool) -> Seq<u8> {
        if styling_enabled {
            self.painted(text)
        } else {
            text
        }
    }

    /// The style that changes nothing.
    pub fn plain() -> (style: TextStyle)
        ensures
            style == (TextStyle { foreground: None, bold: false, underline: false }),
            style.is_plain(),
    {
        TextStyle { foreground: None, bold: false, underline: false }
    }

    /// `text` as it is shown in this style.
    pub fn show(&self, text: &[u8], styling_enabled: bool) -> (out: Vec<u8>)
        ensures
            out@ == self.shown(text@, styling_enabled),
    {
        if styling_enabled {
            paint(*self, text)
        } else {
            let out = copy_range(text, 0, text.len());
            assert(text@.subrange(0, text@.len() as int) == text@);
            out
        }
    }
}

/// `ansi_term::Style::paint` on a byte string, written out with
/// `ANSIByteString::write_to`.
///
/// The style handed over has this style's foreground, bold and underline and
/// nothing else set. For such a style the crate writes the prefix (nothing if
/// the style is plain, else escape, `[`, the codes `1`, `4` and `3` with the
/// colour's digit, as far as they are set, with `;` between them, and `m`),
/// then the text as it is, then the suffix (nothing if the style is plain, else
/// escape and `[0m`). Writing into a vector does not fail.
#[verifier::external_body]
fn paint(style: TextStyle, text: &[u8]) -> (out: Vec<u8>)
    ensures
        out@ == style.painted(text@),
{
    let foreground = style.foreground.map(|c| match c {
        Color::Black => Colour::Black,
        Color::Red => Colour::Red,
        Color::Green => Colour::Green,
        Color::Yellow => Colour::Yellow,
        Color::Blue => Colour::Blue,
        Color::Purple => Colour::Purple,
        Color::Cyan => Colour::Cyan,
        Color::White => Colour::White,
    });
    let ansi = Style { foreground, is_bold: style.bold, is_underline: style.underline, ..Style::new() };
    let mut out = Vec::new();
    let _ = ansi.paint(text).write_to(&mut out);
    out
}

/// The byte that begins a terminal code.
pub const ESCAPE: u8 = 0x1b;

/// The byte that ends the terminal codes of a style.
pub const CODE_END: u8 = 0x6d;

/// `s` without its terminal codes: each stretch from an escape to the next
/// `m` is left out, and so is an escape with no `m` after it, with all that
/// follows.
pub open spec fn strip_codes(s: Seq<u8>) -> Seq<u8>
    decreases s.len(),
{
    if s.len() == 0 {
        Seq::empty()
    } else if s[0] == ESCAPE {
        let end = find_byte(s, CODE_END) as int;
        if end < s.len() {
            proof {
                lemma_find_byte(s, CODE_END);
            }
            strip_codes(s.subrange(end + 1, s.len() as int))
        } else {
            Seq::empty()
        }
    } else {
        seq![s[0]] + strip_codes(s.drop_first())
    }
}

/// Text without an escape loses nothing when codes are stripped.
pub proof fn lemma_strip_text(text: Seq<u8>, rest: Seq<u8>)
    requires
        !text.contains(ESCAPE),
    ensures
        strip_codes(text + rest) == text + strip_codes(rest),
    decreases text.len(),
{
    if text.len() == 0 {
        assert(text + rest =~= rest);
        assert(text + strip_codes(rest) =~= strip_codes(rest));
    } else {
        let s = text + rest;
        let t = text.drop_first();
        assert(text.contains(text[0]));
        assert(s[0] == text[0]);
        assert forall|i: int| 0 <= i < t.len() implies t[i] != ESCAPE by {
            assert(text.contains(text[i + 1]));
        }
        assert(!t.contains(ESCAPE));
        lemma_strip_text(t, rest);
        assert(s.drop_first() =~= t + rest);
        assert(seq![s[0]] + (t + strip_codes(rest)) =~= text + strip_codes(rest));
    }
}

/// The codes that switch a style on or off are stripped whole.
pub proof fn lemma_strip_style(style: TextStyle, rest: Seq<u8>)
    ensures
        strip_codes(style.prefix() + rest) == strip_codes(rest),
        strip_codes(style.suffix() + rest) == strip_codes(rest),
{
    if style.is_plain() {
        assert(style.prefix() + rest =~= rest);
        assert(style.suffix() + rest =~= rest);
    } else {
        let p = style.prefix();
        let a = p + rest;
        let n = p.len() - 1;
        assert forall|i: int| 0 <= i < n implies a[i] != CODE_END by {
            assert(a[i] == p[i]);
        }
        assert(a[n] == CODE_END);
        lemma_find_byte_is(a, CODE_END, n);
        assert(a.subrange(n + 1, a.len() as int) =~= rest);
        let q = style.suffix();
        let b = q + rest;
        assert(b[0] == ESCAPE && b[1] == 0x5bu8 && b[2] == 0x30u8 && b[3] == CODE_END);
        lemma_find_byte_is(b, CODE_END, 3);
        assert(b.subrange(4, b.len() as int) =~= rest);
    }
}

/// Styling changes nothing but the codes around a text: what is shown with
/// styling on is, with the codes stripped, what is shown with styling off.
pub proof fn lemma_strip_shown(style: TextStyle, text: Seq<u8>, rest: Seq<u8>)
    requires
        !text.contains(ESCAPE),
    ensures
        strip_codes(style.shown(text, true) + rest) == style.shown(text, false) + strip_codes(rest),
{
    let tail = style.suffix() + rest;
    assert(style.shown(text, true) + rest =~= style.prefix() + (text + tail));
    lemma_strip_style(style, text + tail);
    lemma_strip_text(text, tail);
    lemma_strip_style(style, rest);
}

} // verus!
