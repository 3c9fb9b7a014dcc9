//! What the user is told when the cache is outdated.

use vstd::prelude::*;
use vstd::string::StringSliceAdditionalSpecFns;
use crate::style::{Color, TextStyle};

verus! {

/// The digits of `n` in base ten, as bytes.
pub open spec fn decimal(n: nat) -> Seq<u8>
    decreases n,
{
    if n < 10 {
        seq![(0x30 + n) as u8]
    } else {
        decimal(n / 10) + seq![(0x30 + n % 10) as u8]
    }
}

/// The style of a warning: yellow.
pub open spec fn warning_style() -> TextStyle {
    TextStyle { foreground: Some(Color::Yellow), bold: false, underline: false }
}

/// The words of the warning that the cache is more than `days` days old.
pub open spec fn outdated_words(days: u64) -> Seq<u8> {
    "The cache hasn't been updated for more than ".spec_bytes() + decimal(days as nat)
        + " days.\nYou should probably run `tldr --update` soon.".spec_bytes()
}

/// The digits of `n` in base ten.
pub fn to_decimal(n: u64) -> (digits: Vec<u8>)
    ensures
        digits@ == decimal(n as nat),
    decreases n,
{
    if n < 10 {
        let digit: u8 = 0x30 + n as u8;
        let digits: Vec<u8> = vec![digit];
        assert(digits@ =~= decimal(n as nat));
        digits
    } else {
        let mut digits = to_decimal(n / 10);
        let digit: u8 = 0x30 + (n % 10) as u8;
        digits.push(digit);
        assert(digits@ =~= decimal(n as nat));
        digits
    }
}

/// The warning that the cache is more than `days` days old, in yellow where
/// styling is on.
pub fn outdated_notice(days: u64, styling_enabled: bool) -> (notice: Vec<u8>)
    ensures
        notice@ == warning_style().shown(outdated_words(days), styling_enabled),
{
    let mut words: Vec<u8> = Vec::new();
    words.extend_from_slice("The cache hasn't been updated for more than ".as_bytes());
    let mut digits = to_decimal(days);
    words.append(&mut digits);
    words.extend_from_slice(" days.\nYou should probably run `tldr --update` soon.".as_bytes());
    assert(words@ =~= outdated_words(days));
    let style = TextStyle { foreground: Some(Color::Yellow), bold: false, underline: false };
    style.show(words.as_slice(), styling_enabled)
}

} // verus!
