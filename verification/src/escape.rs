//! Marker escaping.
//!
//! Every literal `⟦` (U+27E6) of the input becomes `⟦ESC⟧` before any stage
//! runs, so the markers the stages generate (`⟦REP n×⟧`, `⟦Un⟧`, `⟦Fn⟧`, the
//! footer) never collide with user text. Expansion resolves the markers first
//! and then unescapes.

use vstd::prelude::*;
use crate::text::{chars_of, matches_at, occurs_at, string_of};

verus! {

/// The escape sequence that stands for a literal `⟦`.
pub const ESC: &'static str = "\u{27E6}ESC\u{27E7}";

/// `⟦`, the opening bracket of every marker.
pub open spec fn open_bracket() -> char {
    '\u{27E6}'
}

/// `⟧`, the closing bracket of every marker.
pub open spec fn close_bracket() -> char {
    '\u{27E7}'
}

/// The characters of [`ESC`].
pub open spec fn esc_seq() -> Seq<char> {
    seq!['\u{27E6}', 'E', 'S', 'C', '\u{27E7}']
}

/// What one input character becomes.
pub open spec fn escape_char(c: char) -> Seq<char> {
    if c == open_bracket() {
        esc_seq()
    } else {
        seq![c]
    }
}

/// `s` with every `⟦` replaced by `⟦ESC⟧`.
pub open spec fn escape_spec(s: Seq<char>) -> Seq<char>
    decreases s.len(),
{
    if s.len() == 0 {
        Seq::<char>::empty()
    } else {
        escape_spec(s.drop_last()) + escape_char(s.last())
    }
}

/// `s` scanned left to right with every `⟦ESC⟧` replaced by `⟦`; everything
/// else, other `⟦` included, is kept.
pub open spec fn unescape_spec(s: Seq<char>) -> Seq<char>
    decreases s.len(),
{
    if s.len() == 0 {
        Seq::<char>::empty()
    } else if occurs_at(s, 0, esc_seq()) {
        seq![open_bracket()] + unescape_spec(s.skip(5))
    } else {
        seq![s[0]] + unescape_spec(s.skip(1))
    }
}

/// Every `⟦` that is followed by a character is followed by `E`: the shape of
/// escaped text, kept by any substring of it.
pub open spec fn brackets_escaped(t: Seq<char>) -> bool {
    forall|i: int| 0 <= i && i + 1 < t.len() && t[i] == open_bracket() ==> #[trigger] t[i + 1] == 'E'
}

/// `s` with every `⟦` replaced by [`ESC`].
pub fn escape(s: &str) -> (r: String)
    ensures
        r@ == escape_spec(s@),
{
    let v = chars_of(s);
    let mut out: Vec<char> = Vec::new();
    let mut i: usize = 0;
    while i < v.len()
        invariant
            i <= v@.len(),
            out@ == escape_spec(v@.take(i as int)),
        decreases v@.len() - i,
    {
        let c = v[i];
        if c == '\u{27E6}' {
            out.push('\u{27E6}');
            out.push('E');
            out.push('S');
            out.push('C');
            out.push('\u{27E7}');
        } else {
            out.push(c);
        }
        i += 1;
        assert(v@.take(i as int).drop_last() =~= v@.take(i - 1));
        assert(out@ =~= escape_spec(v@.take(i as int)));
    }
    assert(v@.take(v@.len() as int) =~= v@);
    string_of(out.as_slice())
}

/// Inverse of [`escape`]: every `⟦ESC⟧` becomes `⟦`, any other `⟦` is kept.
pub fn unescape(s: &str) -> (r: String)
    ensures
        r@ == unescape_spec(s@),
{
    let v = chars_of(s);
    let esc: Vec<char> = vec!['\u{27E6}', 'E', 'S', 'C', '\u{27E7}'];
    assert(esc@ =~= esc_seq());
    let mut out: Vec<char> = Vec::new();
    let mut i: usize = 0;
    assert(v@.skip(0) =~= v@);
    while i < v.len()
        invariant
            i <= v@.len(),
            esc@ == esc_seq(),
            out@ + unescape_spec(v@.skip(i as int)) == unescape_spec(v@),
        decreases v@.len() - i,
    {
        let ghost rest = v@.skip(i as int);
        assert(occurs_at(v@, i as int, esc_seq()) == occurs_at(rest, 0, esc_seq())) by {
            if i + 5 <= v@.len() {
                assert(v@.subrange(i as int, i + 5) =~= rest.subrange(0, 5));
            }
        }
        if matches_at(v.as_slice(), i, esc.as_slice()) {
            out.push('\u{27E6}');
            assert(rest.skip(5) =~= v@.skip(i + 5));
            i += 5;
        } else {
            out.push(v[i]);
            assert(rest.skip(1) =~= v@.skip(i + 1));
            i += 1;
        }
    }
    assert(v@.skip(i as int) =~= Seq::<char>::empty());
    assert(out@ + Seq::<char>::empty() =~= out@);
    string_of(out.as_slice())
}

/// Escaping distributes over concatenation.
pub proof fn lemma_escape_append(a: Seq<char>, b: Seq<char>)
    ensures
        escape_spec(a + b) == escape_spec(a) + escape_spec(b),
    decreases b.len(),
{
    if b.len() == 0 {
        assert(a + b =~= a);
        assert(escape_spec(a) + escape_spec(b) =~= escape_spec(a));
    } else {
        lemma_escape_append(a, b.drop_last());
        assert((a + b).drop_last() =~= a + b.drop_last());
    }
}

/// Unescaping undoes escaping, for every text.
pub proof fn lemma_unescape_escape(s: Seq<char>)
    ensures
        unescape_spec(escape_spec(s)) == s,
    decreases s.len(),
{
    if s.len() == 0 {
    } else {
        let rest = s.skip(1);
        assert(s =~= seq![s[0]] + rest);
        lemma_escape_append(seq![s[0]], rest);
        let one = seq![s[0]];
        assert(one.drop_last() =~= Seq::<char>::empty());
        assert(escape_spec(one.drop_last()) =~= Seq::<char>::empty());
        assert(one.last() == s[0]);
        assert(escape_spec(one) =~= escape_char(s[0]));
        lemma_unescape_escape(rest);
        let e = escape_spec(s);
        if s[0] == open_bracket() {
            assert(e.subrange(0, 5) =~= esc_seq());
            assert(e.skip(5) =~= escape_spec(rest));
        } else {
            assert(e[0] == s[0]);
            assert(!occurs_at(e, 0, esc_seq())) by {
                if occurs_at(e, 0, esc_seq()) {
                    assert(e.subrange(0, 5)[0] == e[0]);
                }
            }
            assert(e.skip(1) =~= escape_spec(rest));
        }
        assert(unescape_spec(e) =~= s);
    }
}

/// Escaped text has the shape [`brackets_escaped`].
pub proof fn lemma_escape_shape(s: Seq<char>)
    ensures
        brackets_escaped(escape_spec(s)),
    decreases s.len(),
{
    if s.len() > 0 {
        lemma_escape_shape(s.drop_last());
        let p = escape_spec(s.drop_last());
        let e = escape_spec(s);
        let t = escape_char(s.last());
        assert(e == p + t);
        assert forall|i: int|
            0 <= i && i + 1 < e.len() && e[i] == open_bracket() implies #[trigger] e[i + 1] == 'E' by {
            if i + 1 < p.len() {
                assert(e[i] == p[i] && e[i + 1] == p[i + 1]);
            } else if i + 1 == p.len() {
                // the last character of `p` is never an opening bracket
                lemma_escape_last(s.drop_last());
                assert(e[i] == p[i]);
            } else {
                assert(e[i] == t[i - p.len()]);
                assert(e[i + 1] == t[i + 1 - p.len()]);
            }
        }
    }
}

/// Escaped text never ends with an opening bracket.
proof fn lemma_escape_last(s: Seq<char>)
    ensures
        escape_spec(s).len() > 0 ==> escape_spec(s).last() != open_bracket(),
    decreases s.len(),
{
    if s.len() > 0 {
        lemma_escape_last(s.drop_last());
    }
}

} // verus!

verus! {

/// `s` holds no `⟦` immediately followed by `c`.
pub open spec fn no_marker_pair(s: Seq<char>, c: char) -> bool {
    forall|p: int| 0 <= p && p + 1 < s.len() ==> !(#[trigger] s[p] == open_bracket() && s[p + 1] == c)
}

/// Escaped text holds no `⟦` followed by anything but `E`.
pub proof fn lemma_escaped_no_pair(s: Seq<char>, c: char)
    requires
        brackets_escaped(s),
        c != 'E',
    ensures
        no_marker_pair(s, c),
{
    assert forall|p: int| 0 <= p && p + 1 < s.len() implies !(#[trigger] s[p] == open_bracket() && s[p + 1] == c) by {
        if s[p] == open_bracket() {
            assert(s[p + 1] == 'E');
        }
    }
}

} // verus!
