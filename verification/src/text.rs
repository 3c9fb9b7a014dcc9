//! Byte strings: blanks, lines, trimming and the dictionary order.

use vstd::prelude::*;

verus! {

/// The byte that ends a line.
pub const NEWLINE: u8 = 0x0a;

/// Space, tab and carriage return are blank.
pub open spec fn is_blank_byte(b: u8) -> bool {
    b == 0x20 || b == 0x09 || b == 0x0d
}

/// A byte string is blank when it holds nothing but blank bytes.
pub open spec fn is_blank(s: Seq<u8>) -> bool {
    forall|i: int| 0 <= i < s.len() ==> is_blank_byte(#[trigger] s[i])
}

/// The index of the first `b` in `s`; `s.len()` where `s` holds none.
pub open spec fn find_byte(s: Seq<u8>, b: u8) -> nat
    decreases s.len(),
{
    if s.len() == 0 || s[0] == b {
        0
    } else {
        1 + find_byte(s.drop_first(), b)
    }
}

/// The length of the first line of `s`, its newline not counted.
pub open spec fn line_len(s: Seq<u8>) -> nat {
    find_byte(s, NEWLINE)
}

/// The number of bytes that the first line of `s` takes up, its newline
/// counted where there is one.
pub open spec fn line_span(s: Seq<u8>) -> nat {
    if line_len(s) < s.len() {
        line_len(s) + 1
    } else {
        s.len()
    }
}

/// The number of blank bytes that `s` begins with.
pub open spec fn leading_blanks(s: Seq<u8>) -> nat
    decreases s.len(),
{
    if s.len() > 0 && is_blank_byte(s[0]) {
        1 + leading_blanks(s.drop_first())
    } else {
        0
    }
}

/// The number of blank bytes that `s` ends with.
pub open spec fn trailing_blanks(s: Seq<u8>) -> nat
    decreases s.len(),
{
    if s.len() > 0 && is_blank_byte(s.last()) {
        1 + trailing_blanks(s.drop_last())
    } else {
        0
    }
}

/// `s` without the blanks at either end.
pub open spec fn trim(s: Seq<u8>) -> Seq<u8> {
    if is_blank(s) {
        Seq::empty()
    } else {
        s.subrange(leading_blanks(s) as int, s.len() - trailing_blanks(s))
    }
}

/// `find_byte` names the first occurrence.
pub proof fn lemma_find_byte(s: Seq<u8>, b: u8)
    ensures
        find_byte(s, b) <= s.len(),
        forall|i: int| 0 <= i < find_byte(s, b) ==> s[i] != b,
        find_byte(s, b) < s.len() ==> s[find_byte(s, b) as int] == b,
    decreases s.len(),
{
    if s.len() == 0 || s[0] == b {
    } else {
        let t = s.drop_first();
        lemma_find_byte(t, b);
        assert forall|i: int| 0 <= i < find_byte(s, b) implies s[i] != b by {
            if i > 0 {
                assert(s[i] == t[i - 1]);
            }
        }
        assert(find_byte(s, b) < s.len() ==> s[find_byte(s, b) as int] == t[find_byte(t, b) as int]);
    }
}

/// An index with the byte on it and none before it is what `find_byte` gives.
pub proof fn lemma_find_byte_is(s: Seq<u8>, b: u8, n: int)
    requires
        0 <= n <= s.len(),
        forall|i: int| 0 <= i < n ==> s[i] != b,
        n == s.len() || s[n] == b,
    ensures
        find_byte(s, b) == n,
    decreases s.len(),
{
    if n > 0 {
        let t = s.drop_first();
        assert(s[0] != b);
        assert forall|i: int| 0 <= i < n - 1 implies t[i] != b by {
            assert(t[i] == s[i + 1]);
        }
        lemma_find_byte_is(t, b, n - 1);
    }
}

/// The count of leading blanks, said without recursion.
pub proof fn lemma_leading_blanks_is(s: Seq<u8>, n: int)
    requires
        0 <= n <= s.len(),
        forall|i: int| 0 <= i < n ==> is_blank_byte(s[i]),
        n == s.len() || !is_blank_byte(s[n]),
    ensures
        leading_blanks(s) == n,
    decreases s.len(),
{
    if n > 0 {
        let t = s.drop_first();
        assert(is_blank_byte(s[0]));
        assert forall|i: int| 0 <= i < n - 1 implies is_blank_byte(t[i]) by {
            assert(t[i] == s[i + 1]);
        }
        lemma_leading_blanks_is(t, n - 1);
    }
}

/// The count of trailing blanks, said without recursion.
pub proof fn lemma_trailing_blanks_is(s: Seq<u8>, n: int)
    requires
        0 <= n <= s.len(),
        forall|i: int| s.len() - n <= i < s.len() ==> is_blank_byte(s[i]),
        n == s.len() || !is_blank_byte(s[s.len() - n - 1]),
    ensures
        trailing_blanks(s) == n,
    decreases s.len(),
{
    if n > 0 {
        let t = s.drop_last();
        assert(is_blank_byte(s[s.len() - 1]));
        assert forall|i: int| t.len() - (n - 1) <= i < t.len() implies is_blank_byte(t[i]) by {
            assert(t[i] == s[i]);
        }
        lemma_trailing_blanks_is(t, n - 1);
    }
}

/// Whether `b` is a blank byte.
pub fn blank_byte(b: u8) -> (r: bool)
    ensures
        r == is_blank_byte(b),
{
    b == 0x20 || b == 0x09 || b == 0x0d
}

/// The index of the first `b` at or after `from`; `s.len()` where none follows.
pub fn find_from(s: &[u8], from: usize, b: u8) -> (r: usize)
    requires
        from <= s.len(),
    ensures
        from <= r <= s.len(),
        r == from + find_byte(s@.subrange(from as int, s.len() as int), b),
{
    let mut i: usize = from;
    while i < s.len() && s[i] != b
        invariant
            from <= i <= s.len(),
            forall|k: int| from <= k < i ==> s@[k] != b,
        decreases s.len() - i,
    {
        i += 1;
    }
    proof {
        let t = s@.subrange(from as int, s.len() as int);
        assert forall|k: int| 0 <= k < i - from implies t[k] != b by {
            assert(t[k] == s@[from + k]);
        }
        lemma_find_byte_is(t, b, i - from);
    }
    i
}

/// Whether the bytes of `s` from `from` up to `to` are all blank.
pub fn blank_range(s: &[u8], from: usize, to: usize) -> (r: bool)
    requires
        from <= to <= s.len(),
    ensures
        r == is_blank(s@.subrange(from as int, to as int)),
{
    let mut i: usize = from;
    while i < to
        invariant
            from <= i <= to <= s.len(),
            forall|k: int| from <= k < i ==> is_blank_byte(s@[k]),
        decreases to - i,
    {
        if !blank_byte(s[i]) {
            proof {
                let t = s@.subrange(from as int, to as int);
                assert(t[i - from] == s@[i as int]);
            }
            return false;
        }
        i += 1;
    }
    proof {
        let t = s@.subrange(from as int, to as int);
        assert forall|k: int| 0 <= k < t.len() implies is_blank_byte(#[trigger] t[k]) by {
            assert(t[k] == s@[from + k]);
        }
    }
    true
}

/// A copy of the bytes of `s` from `from` up to `to`.
pub fn copy_range(s: &[u8], from: usize, to: usize) -> (r: Vec<u8>)
    requires
        from <= to <= s.len(),
    ensures
        r@ == s@.subrange(from as int, to as int),
{
    let mut out: Vec<u8> = Vec::new();
    let mut i: usize = from;
    while i < to
        invariant
            from <= i <= to <= s.len(),
            out@ == s@.subrange(from as int, i as int),
        decreases to - i,
    {
        out.push(s[i]);
        i += 1;
    }
    out
}

/// A copy of the bytes of `s` from `from` up to `to`, without the blanks at
/// either end.
pub fn trimmed_range(s: &[u8], from: usize, to: usize) -> (r: Vec<u8>)
    requires
        from <= to <= s.len(),
    ensures
        r@ == trim(s@.subrange(from as int, to as int)),
{
    let ghost t = s@.subrange(from as int, to as int);
    let mut a: usize = from;
    while a < to && blank_byte(s[a])
        invariant
            from <= a <= to <= s.len(),
            forall|k: int| from <= k < a ==> is_blank_byte(s@[k]),
        decreases to - a,
    {
        a += 1;
    }
    let mut b: usize = to;
    while b > a && blank_byte(s[b - 1])
        invariant
            a <= b <= to <= s.len(),
            forall|k: int| b <= k < to ==> is_blank_byte(s@[k]),
        decreases b,
    {
        b -= 1;
    }
    proof {
        if a == to {
            assert forall|k: int| 0 <= k < t.len() implies is_blank_byte(#[trigger] t[k]) by {
                assert(t[k] == s@[from + k]);
            }
        } else {
            assert(t[a - from] == s@[a as int]);
            assert(!is_blank(t));
            assert forall|k: int| 0 <= k < a - from implies is_blank_byte(t[k]) by {
                assert(t[k] == s@[from + k]);
            }
            lemma_leading_blanks_is(t, a - from);
            assert(b > a);
            assert(t[b - 1 - from] == s@[b - 1]);
            assert forall|k: int| t.len() - (to - b) <= k < t.len() implies is_blank_byte(t[k]) by {
                assert(t[k] == s@[from + k]);
            }
            lemma_trailing_blanks_is(t, to - b);
            assert(s@.subrange(a as int, b as int) == t.subrange(a - from, b - from));
        }
    }
    copy_range(s, a, b)
}

/// Where two byte strings part, with `a` the lesser: they agree before `k`, and
/// at `k` either `a` has ended and `b` has not, or `a` holds the smaller byte.
pub open spec fn parts_below(a: Seq<u8>, b: Seq<u8>, k: int) -> bool {
    &&& 0 <= k <= a.len()
    &&& k < b.len()
    &&& a.subrange(0, k) == b.subrange(0, k)
    &&& (k == a.len() || a[k] < b[k])
}

/// The dictionary order on byte strings: `a` comes before `b`.
pub open spec fn lex_lt(a: Seq<u8>, b: Seq<u8>) -> bool {
    exists|k: int| parts_below(a, b, k)
}

/// How one byte string stands to another in the dictionary order.
#[derive(Debug, Clone, Copy, PartialEq, Eq, Structural)]
pub enum Side {
    Before,
    Same,
    After,
}

/// The upper-case letters of ASCII mapped to lower case, every other byte left.
pub open spec fn lower_byte(b: u8) -> u8 {
    if 0x41 <= b <= 0x5a {
        (b + 0x20) as u8
    } else {
        b
    }
}

/// `s` with each byte in lower case.
pub open spec fn lowered(s: Seq<u8>) -> Seq<u8> {
    Seq::new(s.len(), |i: int| lower_byte(s[i]))
}

/// No byte string comes before itself.
pub proof fn lemma_lex_irreflexive(a: Seq<u8>)
    ensures
        !lex_lt(a, a),
{
}

/// What comes before something that comes before a third comes before the
/// third.
pub proof fn lemma_lex_transitive(a: Seq<u8>, b: Seq<u8>, c: Seq<u8>)
    requires
        lex_lt(a, b),
        lex_lt(b, c),
    ensures
        lex_lt(a, c),
{
    let k1 = choose|k: int| parts_below(a, b, k);
    let k2 = choose|k: int| parts_below(b, c, k);
    let k = if k1 <= k2 {
        k1
    } else {
        k2
    };
    assert forall|i: int| 0 <= i < k implies a[i] == c[i] by {
        assert(a.subrange(0, k1)[i] == b.subrange(0, k1)[i]);
        assert(b.subrange(0, k2)[i] == c.subrange(0, k2)[i]);
    }
    assert(a.subrange(0, k) =~= c.subrange(0, k));
    if k1 < k2 {
        assert(b.subrange(0, k2)[k1] == c.subrange(0, k2)[k1]);
    } else if k2 < k1 {
        assert(a.subrange(0, k1)[k2] == b.subrange(0, k1)[k2]);
    }
    assert(parts_below(a, c, k));
}

/// Of two byte strings one comes before the other, unless they are the same.
pub proof fn lemma_lex_asymmetric(a: Seq<u8>, b: Seq<u8>)
    requires
        lex_lt(a, b),
    ensures
        !lex_lt(b, a),
        a != b,
{
    if lex_lt(b, a) {
        lemma_lex_transitive(a, b, a);
        lemma_lex_irreflexive(a);
    }
}

/// Whether two byte strings are the same.
pub fn same_bytes(a: &[u8], b: &[u8]) -> (r: bool)
    ensures
        r == (a@ == b@),
{
    if a.len() != b.len() {
        return false;
    }
    let mut i: usize = 0;
    while i < a.len()
        invariant
            i <= a.len(),
            a.len() == b.len(),
            forall|k: int| 0 <= k < i ==> a@[k] == b@[k],
        decreases a.len() - i,
    {
        if a[i] != b[i] {
            return false;
        }
        i += 1;
    }
    assert(a@ =~= b@);
    true
}

/// How `a` stands to `b` in the dictionary order.
pub fn compare(a: &[u8], b: &[u8]) -> (r: Side)
    ensures
        r == Side::Before <==> lex_lt(a@, b@),
        r == Side::Same <==> a@ == b@,
        r == Side::After <==> lex_lt(b@, a@),
{
    let mut i: usize = 0;
    while i < a.len() && i < b.len() && a[i] == b[i]
        invariant
            i <= a.len(),
            i <= b.len(),
            forall|k: int| 0 <= k < i ==> a@[k] == b@[k],
        decreases a.len() - i,
    {
        i += 1;
    }
    proof {
        assert(a@.subrange(0, i as int) =~= b@.subrange(0, i as int));
    }
    if i == a.len() && i == b.len() {
        proof {
            assert(a@ =~= b@);
            lemma_lex_irreflexive(a@);
        }
        Side::Same
    } else if i == a.len() || (i < b.len() && a[i] < b[i]) {
        proof {
            assert(parts_below(a@, b@, i as int));
            lemma_lex_asymmetric(a@, b@);
        }
        Side::Before
    } else {
        proof {
            assert(parts_below(b@, a@, i as int));
            lemma_lex_asymmetric(b@, a@);
        }
        Side::After
    }
}

/// A copy of `s` with each byte in lower case.
pub fn to_lower(s: &[u8]) -> (r: Vec<u8>)
    ensures
        r@ == lowered(s@),
{
    let mut out: Vec<u8> = Vec::new();
    let mut i: usize = 0;
    while i < s.len()
        invariant
            i <= s.len(),
            out@ == lowered(s@.take(i as int)),
        decreases s.len() - i,
    {
        let b = s[i];
        let low: u8 = if 0x41 <= b && b <= 0x5a {
            b + 0x20
        } else {
            b
        };
        out.push(low);
        proof {
            assert(out@ =~= lowered(s@.take(i + 1)));
        }
        i += 1;
    }
    proof {
        assert(s@.take(s.len() as int) == s@);
    }
    out
}

/// Two byte strings that agree before `k` are in order one way or the other,
/// or are the same.
proof fn lemma_lex_total_from(a: Seq<u8>, b: Seq<u8>, k: int)
    requires
        0 <= k <= a.len(),
        k <= b.len(),
        a.subrange(0, k) == b.subrange(0, k),
    ensures
        lex_lt(a, b) || a == b || lex_lt(b, a),
    decreases a.len() - k,
{
    if k == a.len() && k == b.len() {
        assert(a == a.subrange(0, k));
        assert(b == b.subrange(0, k));
    } else if k == a.len() {
        assert(parts_below(a, b, k));
    } else if k == b.len() {
        assert(parts_below(b, a, k));
    } else if a[k] < b[k] {
        assert(parts_below(a, b, k));
    } else if b[k] < a[k] {
        assert(parts_below(b, a, k));
    } else {
        assert(a.subrange(0, k + 1) =~= a.subrange(0, k).push(a[k]));
        assert(b.subrange(0, k + 1) =~= b.subrange(0, k).push(b[k]));
        lemma_lex_total_from(a, b, k + 1);
    }
}

/// Of two byte strings that are not the same, one comes before the other.
pub proof fn lemma_lex_total(a: Seq<u8>, b: Seq<u8>)
    ensures
        lex_lt(a, b) || a == b || lex_lt(b, a),
{
    assert(a.subrange(0, 0) =~= b.subrange(0, 0));
    lemma_lex_total_from(a, b, 0);
}

/// The leading blanks are blank, and what follows them is not.
pub proof fn lemma_leading_blanks(s: Seq<u8>)
    ensures
        leading_blanks(s) <= s.len(),
        forall|i: int| 0 <= i < leading_blanks(s) ==> is_blank_byte(s[i]),
        leading_blanks(s) < s.len() ==> !is_blank_byte(s[leading_blanks(s) as int]),
    decreases s.len(),
{
    if s.len() > 0 && is_blank_byte(s[0]) {
        let t = s.drop_first();
        lemma_leading_blanks(t);
        assert forall|i: int| 0 <= i < leading_blanks(s) implies is_blank_byte(s[i]) by {
            if i > 0 {
                assert(s[i] == t[i - 1]);
            }
        }
        if leading_blanks(s) < s.len() {
            assert(s[leading_blanks(s) as int] == t[leading_blanks(t) as int]);
        }
    }
}

/// The trailing blanks are blank, and what stands before them is not.
pub proof fn lemma_trailing_blanks(s: Seq<u8>)
    ensures
        trailing_blanks(s) <= s.len(),
        forall|i: int| s.len() - trailing_blanks(s) <= i < s.len() ==> is_blank_byte(s[i]),
        trailing_blanks(s) < s.len() ==> !is_blank_byte(s[s.len() - trailing_blanks(s) - 1]),
    decreases s.len(),
{
    if s.len() > 0 && is_blank_byte(s.last()) {
        let t = s.drop_last();
        lemma_trailing_blanks(t);
        assert forall|i: int| s.len() - trailing_blanks(s) <= i < s.len() implies is_blank_byte(
            s[i],
        ) by {
            if i < s.len() - 1 {
                assert(s[i] == t[i]);
            }
        }
        if trailing_blanks(s) < s.len() {
            assert(s[s.len() - trailing_blanks(s) - 1] == t[t.len() - trailing_blanks(t) - 1]);
        }
    }
}

/// In a byte string that is not blank, the blanks at the two ends do not
/// meet.
pub proof fn lemma_blanks_apart(s: Seq<u8>)
    requires
        !is_blank(s),
    ensures
        leading_blanks(s) + trailing_blanks(s) < s.len(),
{
    lemma_leading_blanks(s);
    lemma_trailing_blanks(s);
    let j = choose|j: int| 0 <= j < s.len() && !is_blank_byte(#[trigger] s[j]);
    assert(leading_blanks(s) <= j);
    assert(j < s.len() - trailing_blanks(s));
}

/// The views of a sequence of byte strings.
pub open spec fn strings_view(strings: Seq<Vec<u8>>) -> Seq<Seq<u8>> {
    Seq::new(strings.len(), |i: int| strings[i]@)
}

/// The parts one after the other, with the separator between each two.
pub open spec fn joined(parts: Seq<Seq<u8>>, separator: Seq<u8>) -> Seq<u8>
    decreases parts.len(),
{
    if parts.len() == 0 {
        Seq::empty()
    } else if parts.len() == 1 {
        parts[0]
    } else {
        joined(parts.drop_last(), separator) + separator + parts.last()
    }
}

/// Joins the parts with the separator between each two.
pub fn join(parts: &Vec<Vec<u8>>, separator: &[u8]) -> (out: Vec<u8>)
    ensures
        out@ == joined(strings_view(parts@), separator@),
{
    let ghost views = strings_view(parts@);
    let mut out: Vec<u8> = Vec::new();
    let mut i: usize = 0;
    while i < parts.len()
        invariant
            i <= parts.len(),
            views == strings_view(parts@),
            out@ == joined(views.take(i as int), separator@),
        decreases parts.len() - i,
    {
        proof {
            let next = views.take(i + 1);
            assert(next.drop_last() == views.take(i as int));
            assert(next.last() == parts@[i as int]@);
            assert(separator@.subrange(0, separator@.len() as int) == separator@);
            assert(parts@[i as int]@.subrange(0, parts@[i as int]@.len() as int) == parts@[i as int]@);
            if i == 0 {
                assert(next[0] == parts@[0]@);
                assert(Seq::<u8>::empty() + next[0] =~= next[0]);
            }
        }
        if i > 0 {
            let mut between = copy_range(separator, 0, separator.len());
            out.append(&mut between);
        }
        let mut part = copy_range(parts[i].as_slice(), 0, parts[i].len());
        out.append(&mut part);
        i += 1;
    }
    proof {
        assert(views.take(parts.len() as int) == views);
    }
    out
}

} // verus!
