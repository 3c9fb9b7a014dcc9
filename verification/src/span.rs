//! Command templates: literal text and `{{placeholder}}` spans.

use vstd::prelude::*;
use crate::text::copy_range;

verus! {

/// The byte that, doubled, opens a placeholder.
pub const OPEN_BRACE: u8 = 0x7b;

/// The byte that, doubled, closes a placeholder.
pub const CLOSE_BRACE: u8 = 0x7d;

/// One stretch of a command template.
#[derive(Debug, Clone, PartialEq, Eq)]
pub enum Span {
    /// Text to be typed as it stands.
    Literal(Vec<u8>),
    /// Text that stands for an argument of the user's; the braces are not part
    /// of it.
    Placeholder(Vec<u8>),
}

/// What a [`Span`] holds, as a mathematical value.
pub enum SpanView {
    Literal(Seq<u8>),
    Placeholder(Seq<u8>),
}

impl View for Span {
    type V = SpanView;

    open spec fn view(&self) -> SpanView {
        match self {
            Span::Literal(t) => SpanView::Literal(t@),
            Span::Placeholder(t) => SpanView::Placeholder(t@),
        }
    }
}

impl SpanView {
    /// The text of the span, whichever kind it is.
    pub open spec fn text(self) -> Seq<u8> {
        match self {
            SpanView::Literal(t) => t,
            SpanView::Placeholder(t) => t,
        }
    }
}

/// The views of a sequence of spans.
pub open spec fn spans_view(spans: Seq<Span>) -> Seq<SpanView> {
    Seq::new(spans.len(), |i: int| spans[i]@)
}

/// Whether `s` holds `c` at `i` and again right after it.
pub open spec fn pair_at(s: Seq<u8>, i: int, c: u8) -> bool {
    0 <= i && i + 1 < s.len() && s[i] == c && s[i + 1] == c
}

/// The index of the first place where `s` holds `c` twice in a row; `s.len()`
/// where there is none.
pub open spec fn find_pair(s: Seq<u8>, c: u8) -> nat
    decreases s.len(),
{
    if s.len() < 2 {
        s.len()
    } else if s[0] == c && s[1] == c {
        0
    } else {
        1 + find_pair(s.drop_first(), c)
    }
}

/// The spans of a command template.
///
/// A placeholder runs from the first `{{` to the first `}}` that follows it.
/// The text before it, where there is any, is a literal span, and what comes
/// after the `}}` is read in the same way. Where no `{{` is left, or the one
/// that is left is never closed, the rest is one literal span, braces and all.
pub open spec fn spans_of(s: Seq<u8>) -> Seq<SpanView>
    decreases s.len(),
{
    let open = find_pair(s, OPEN_BRACE) as int;
    let body = s.subrange(open + 2, s.len() as int);
    let close = find_pair(body, CLOSE_BRACE) as int;
    if s.len() == 0 {
        Seq::empty()
    } else if open + 2 > s.len() || close + 2 > body.len() {
        seq![SpanView::Literal(s)]
    } else {
        let rest = spans_of(body.subrange(close + 2, body.len() as int));
        let found = seq![SpanView::Placeholder(body.subrange(0, close))] + rest;
        if open == 0 {
            found
        } else {
            seq![SpanView::Literal(s.subrange(0, open))] + found
        }
    }
}

/// `find_pair` names the first doubled byte.
pub proof fn lemma_find_pair(s: Seq<u8>, c: u8)
    ensures
        find_pair(s, c) <= s.len(),
        find_pair(s, c) < s.len() ==> pair_at(s, find_pair(s, c) as int, c),
        forall|i: int| 0 <= i < find_pair(s, c) ==> !pair_at(s, i, c),
    decreases s.len(),
{
    if s.len() < 2 {
    } else if s[0] == c && s[1] == c {
    } else {
        let t = s.drop_first();
        lemma_find_pair(t, c);
        let n = find_pair(t, c) as int;
        if n < t.len() {
            assert(s[n + 1] == t[n]);
            assert(s[n + 2] == t[n + 1]);
        }
        assert forall|i: int| 0 <= i < find_pair(s, c) implies !pair_at(s, i, c) by {
            if i > 0 && i + 1 < s.len() {
                assert(!pair_at(t, i - 1, c));
                assert(s[i] == t[i - 1]);
                assert(s[i + 1] == t[i]);
            }
        }
    }
}

/// An index with a doubled byte on it and none before it is what `find_pair`
/// gives.
pub proof fn lemma_find_pair_is(s: Seq<u8>, c: u8, n: int)
    requires
        0 <= n <= s.len(),
        forall|i: int| 0 <= i < n ==> !pair_at(s, i, c),
        n == s.len() || pair_at(s, n, c),
    ensures
        find_pair(s, c) == n,
    decreases s.len(),
{
    if s.len() >= 2 && n > 0 {
        let t = s.drop_first();
        assert(!pair_at(s, 0, c));
        assert forall|i: int| 0 <= i < n - 1 implies !pair_at(t, i, c) by {
            assert(!pair_at(s, i + 1, c));
            if i + 1 < t.len() {
                assert(t[i] == s[i + 1]);
                assert(t[i + 1] == s[i + 2]);
            }
        }
        if n < s.len() {
            assert(t[n - 1] == s[n]);
            assert(t[n] == s[n + 1]);
        }
        lemma_find_pair_is(t, c, n - 1);
    }
}

/// The index of the first place at or after `from` and before `to` where `s`
/// holds `c` twice in a row, the second still before `to`; `to` where there is
/// none.
pub fn find_pair_in(s: &[u8], from: usize, to: usize, c: u8) -> (r: usize)
    requires
        from <= to <= s.len(),
    ensures
        from <= r <= to,
        r == from + find_pair(s@.subrange(from as int, to as int), c),
{
    let ghost t = s@.subrange(from as int, to as int);
    let mut i: usize = from;
    while to - i >= 2 && !(s[i] == c && s[i + 1] == c)
        invariant
            from <= i <= to <= s.len(),
            forall|k: int| 0 <= k < i - from ==> !pair_at(t, k, c),
            t == s@.subrange(from as int, to as int),
        decreases to - i,
    {
        proof {
            assert(t[i - from] == s@[i as int]);
            assert(t[i - from + 1] == s@[i + 1]);
        }
        i += 1;
    }
    let r: usize = if to - i >= 2 { i } else { to };
    proof {
        if r < to {
            assert(t[r - from] == s@[r as int]);
            assert(t[r - from + 1] == s@[r + 1]);
        }
        lemma_find_pair_is(t, c, r - from);
    }
    r
}

/// Reads the bytes of `s` from `from` up to `to` as a command template.
pub fn parse_spans(s: &[u8], from: usize, to: usize) -> (spans: Vec<Span>)
    requires
        from <= to <= s.len(),
    ensures
        spans_view(spans@) == spans_of(s@.subrange(from as int, to as int)),
{
    let mut out: Vec<Span> = Vec::new();
    let mut pos: usize = from;
    while pos < to
        invariant
            from <= pos <= to <= s.len(),
            spans_of(s@.subrange(from as int, to as int)) == spans_view(out@) + spans_of(
                s@.subrange(pos as int, to as int),
            ),
        decreases to - pos,
    {
        let ghost rest = s@.subrange(pos as int, to as int);
        let ghost before = spans_view(out@);
        let open = find_pair_in(s, pos, to, OPEN_BRACE);
        proof {
            lemma_find_pair(rest, OPEN_BRACE);
        }
        if open == to {
            out.push(Span::Literal(copy_range(s, pos, to)));
            proof {
                assert(spans_of(rest) == seq![SpanView::Literal(rest)]);
                assert(spans_view(out@) == before + seq![SpanView::Literal(rest)]);
                assert(spans_of(s@.subrange(to as int, to as int)) == Seq::<SpanView>::empty());
            }
            pos = to;
        } else {
            let ghost body = rest.subrange(open - pos + 2, rest.len() as int);
            let close = find_pair_in(s, open + 2, to, CLOSE_BRACE);
            proof {
                assert(body == s@.subrange(open + 2, to as int));
                lemma_find_pair(body, CLOSE_BRACE);
            }
            if close == to {
                out.push(Span::Literal(copy_range(s, pos, to)));
                proof {
                    assert(spans_of(rest) == seq![SpanView::Literal(rest)]);
                    assert(spans_view(out@) == before + seq![SpanView::Literal(rest)]);
                    assert(spans_of(s@.subrange(to as int, to as int)) == Seq::<SpanView>::empty());
                }
                pos = to;
            } else {
                let ghost lit = rest.subrange(0, open - pos);
                let ghost name = body.subrange(0, close - (open + 2));
                let ghost after = body.subrange(close - (open + 2) + 2, body.len() as int);
                proof {
                    assert(lit == s@.subrange(pos as int, open as int));
                    assert(name == s@.subrange(open + 2, close as int));
                    assert(after == s@.subrange(close + 2, to as int));
                }
                if open > pos {
                    out.push(Span::Literal(copy_range(s, pos, open)));
                }
                out.push(Span::Placeholder(copy_range(s, open + 2, close)));
                proof {
                    let found = seq![SpanView::Placeholder(name)] + spans_of(after);
                    if open == pos {
                        assert(spans_of(rest) == found);
                        assert(spans_view(out@) == before + seq![SpanView::Placeholder(name)]);
                    } else {
                        assert(spans_of(rest) == seq![SpanView::Literal(lit)] + found);
                        assert(spans_view(out@) == before + seq![SpanView::Literal(lit)]
                            + seq![SpanView::Placeholder(name)]);
                    }
                }
                pos = close + 2;
            }
        }
    }
    proof {
        assert(spans_of(s@.subrange(pos as int, to as int)) == Seq::<SpanView>::empty());
    }
    out
}

/// Reads a command template.
pub fn parse_template(template: &[u8]) -> (spans: Vec<Span>)
    ensures
        spans_view(spans@) == spans_of(template@),
{
    assert(template@.subrange(0, template@.len() as int) == template@);
    parse_spans(template, 0, template.len())
}

/// Whether the first `{{` of `s`, if it has one, is never closed: no `}}`
/// follows it.
pub open spec fn is_unclosed(s: Seq<u8>) -> bool {
    forall|i: int| find_pair(s, OPEN_BRACE) + 2 <= i ==> !pair_at(s, i, CLOSE_BRACE)
}

/// A template is read leniently: where its first `{{` is never closed, or it
/// has none, the whole of it is one literal span, and so it is for no other
/// template.
pub proof fn lemma_unclosed_is_literal(s: Seq<u8>)
    requires
        s.len() > 0,
    ensures
        is_unclosed(s) <==> spans_of(s) == seq![SpanView::Literal(s)],
{
    let open = find_pair(s, OPEN_BRACE) as int;
    lemma_find_pair(s, OPEN_BRACE);
    if open + 2 <= s.len() {
        let body = s.subrange(open + 2, s.len() as int);
        let close = find_pair(body, CLOSE_BRACE) as int;
        lemma_find_pair(body, CLOSE_BRACE);
        if close < body.len() {
            assert(pair_at(s, open + 2 + close, CLOSE_BRACE));
            let rest = spans_of(body.subrange(close + 2, body.len() as int));
            let found = seq![SpanView::Placeholder(body.subrange(0, close))] + rest;
            assert(found[0] is Placeholder);
            if open > 0 {
                let all = seq![SpanView::Literal(s.subrange(0, open))] + found;
                assert(all.len() >= 2);
            }
            assert(seq![SpanView::Literal(s)][0] is Literal);
            assert(seq![SpanView::Literal(s)].len() == 1);
        } else {
            assert forall|i: int| open + 2 <= i implies !pair_at(s, i, CLOSE_BRACE) by {
                if pair_at(s, i, CLOSE_BRACE) {
                    assert(pair_at(body, i - open - 2, CLOSE_BRACE));
                }
            }
        }
    } else {
        assert(open == s.len());
    }
}

} // verus!
