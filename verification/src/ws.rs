//! Whitespace stage (reversible).
//!
//! Compression (1) squeezes runs of three or more blank segments to their first
//! two, (2) strips the trailing spaces and tabs of each segment (before an
//! optional final `\r`, so CRLF text keeps its `\r`; a segment where stripping
//! would leave a `\r` at the end keeps its whitespace, since expansion puts
//! whitespace back before a final `\r`), (3) collapses every run
//! of two or more spaces to one. The map records what was removed; expansion
//! applies the inverses in reverse order.

use vstd::prelude::*;
use crate::error::TcError;
use crate::text::{
    chars_of, chars_to_strings, clone_chars, decimal, lemma_utf8_len_append,
    lemma_utf8_len_single, lemma_utf8_len_take, string_of, strings_to_chars, text_with_number,
    text_with_two_numbers, utf8_len, utf8_width, utf8_width_exec, view_lines,
};

verus! {

/// What the whitespace stage removed, so that expansion can put it back.
#[derive(Debug, Clone)]
pub struct WsMap {
    /// Blank-segment runs removed by squeezing: (index of the second kept
    /// segment in the output, the removed segments verbatim).
    pub blanks: Vec<(usize, Vec<String>)>,
    /// Trailing whitespace stripped per segment: (segment index, stripped text).
    pub trailing: Vec<(usize, String)>,
    /// Interior space runs collapsed: (segment index, byte offset of the kept
    /// space, run length before collapsing).
    pub runs: Vec<(usize, usize, usize)>,
}

/// The contents of a [`WsMap`] as mathematical values.
pub ghost struct WsModel {
    pub blanks: Seq<(int, Seq<Seq<char>>)>,
    pub trailing: Seq<(int, Seq<char>)>,
    pub runs: Seq<(int, int, int)>,
}

impl View for WsMap {
    type V = WsModel;

    open spec fn view(&self) -> WsModel {
        WsModel {
            blanks: Seq::new(
                self.blanks@.len(),
                |i: int| (self.blanks@[i].0 as int, self.blanks@[i].1.deep_view()),
            ),
            trailing: Seq::new(
                self.trailing@.len(),
                |i: int| (self.trailing@[i].0 as int, self.trailing@[i].1@),
            ),
            runs: Seq::new(
                self.runs@.len(),
                |i: int|
                    (self.runs@[i].0 as int, self.runs@[i].1 as int, self.runs@[i].2 as int),
            ),
        }
    }
}

impl WsMap {
    /// A map that records nothing.
    pub fn new() -> (m: WsMap)
        ensures
            m@.blanks.len() == 0,
            m@.trailing.len() == 0,
            m@.runs.len() == 0,
    {
        WsMap { blanks: Vec::new(), trailing: Vec::new(), runs: Vec::new() }
    }

    /// Whether the map records nothing.
    pub fn is_empty(&self) -> (r: bool)
        ensures
            r == (self@.blanks.len() == 0 && self@.trailing.len() == 0 && self@.runs.len() == 0),
    {
        self.blanks.len() == 0 && self.trailing.len() == 0 && self.runs.len() == 0
    }
}

impl Default for WsMap {
    /// A map that records nothing.
    fn default() -> (m: WsMap)
        ensures
            m@.blanks.len() == 0,
            m@.trailing.len() == 0,
            m@.runs.len() == 0,
    {
        WsMap::new()
    }
}

// ---------------------------------------------------------------------------
// Compression, as mathematical functions
// ---------------------------------------------------------------------------

/// A space, a tab or a carriage return.
pub open spec fn is_ws_char(c: char) -> bool {
    c == ' ' || c == '\t' || c == '\r'
}

/// A blank segment holds only spaces, tabs and `\r` (it may be empty).
pub open spec fn is_blank(seg: Seq<char>) -> bool {
    forall|j: int| 0 <= j < seg.len() ==> is_ws_char(#[trigger] seg[j])
}

/// The number of leading blank segments.
pub open spec fn blank_run(s: Seq<Seq<char>>) -> nat
    decreases s.len(),
{
    if s.len() == 0 || !is_blank(s[0]) {
        0
    } else {
        1 + blank_run(s.skip(1))
    }
}

/// Step (1): the kept segments, and the removed runs with the index in the
/// output of the second kept segment of each run (`base` is the number of
/// segments already output).
pub open spec fn squeeze(s: Seq<Seq<char>>, base: int) -> (Seq<Seq<char>>, Seq<(int, Seq<Seq<char>>)>)
    decreases s.len(),
{
    if s.len() == 0 {
        (Seq::empty(), Seq::empty())
    } else if is_blank(s[0]) {
        let r = blank_run(s);
        proof {
            lemma_blank_run(s);
        }
        if r >= 3 {
            let (o, b) = squeeze(s.skip(r as int), base + 2);
            (seq![s[0], s[1]] + o, seq![(base + 1, s.subrange(2, r as int))] + b)
        } else {
            let (o, b) = squeeze(s.skip(r as int), base + r);
            (s.take(r as int) + o, b)
        }
    } else {
        let (o, b) = squeeze(s.skip(1), base + 1);
        (seq![s[0]] + o, b)
    }
}

/// The segment ends with the `\r` of a CRLF line ending.
pub open spec fn has_cr(seg: Seq<char>) -> bool {
    seg.len() > 0 && seg.last() == '\r'
}

/// The segment without its final `\r`.
pub open spec fn content(seg: Seq<char>) -> Seq<char> {
    if has_cr(seg) {
        seg.drop_last()
    } else {
        seg
    }
}

/// The segment's final `\r`, if any.
pub open spec fn term(seg: Seq<char>) -> Seq<char> {
    if has_cr(seg) {
        seq!['\r']
    } else {
        Seq::empty()
    }
}

/// `t` without its trailing spaces and tabs.
pub open spec fn trim_ws_end(t: Seq<char>) -> Seq<char>
    decreases t.len(),
{
    if t.len() > 0 && (t.last() == ' ' || t.last() == '\t') {
        trim_ws_end(t.drop_last())
    } else {
        t
    }
}

/// The number of leading spaces.
pub open spec fn space_run(t: Seq<char>) -> nat
    decreases t.len(),
{
    if t.len() == 0 || t[0] != ' ' {
        0
    } else {
        1 + space_run(t.skip(1))
    }
}

/// Step (3) on one segment `idx`: every run of spaces becomes one space, and a
/// run of two or more is recorded with the byte offset of the kept space
/// (`off` is the byte length of what is already output).
pub open spec fn collapse(t: Seq<char>, idx: int, off: int) -> (Seq<char>, Seq<(int, int, int)>)
    decreases t.len(),
{
    if t.len() == 0 {
        (Seq::empty(), Seq::empty())
    } else if t[0] == ' ' {
        let r = space_run(t);
        proof {
            lemma_space_run(t);
        }
        let (o, rs) = collapse(t.skip(r as int), idx, off + 1);
        (seq![' '] + o, if r >= 2 {
            seq![(idx, off, r as int)] + rs
        } else {
            rs
        })
    } else {
        let (o, rs) = collapse(t.skip(1), idx, off + utf8_width(t[0]));
        (seq![t[0]] + o, rs)
    }
}

/// What step (2) keeps of a segment: its content less the trailing spaces
/// and tabs, unless the segment has no final `\r` and stripping would leave
/// one at the end. Expansion puts stripped whitespace back before a final
/// `\r`, so such a segment keeps its whitespace.
pub open spec fn kept(seg: Seq<char>) -> Seq<char> {
    let c = content(seg);
    if !has_cr(seg) && has_cr(trim_ws_end(c)) {
        c
    } else {
        trim_ws_end(c)
    }
}

/// Steps (2) and (3) on one segment `idx`: the new segment, the stripped
/// trailing whitespace (if any), and the collapsed runs.
pub open spec fn ws_line(seg: Seq<char>, idx: int) -> (Seq<char>, Seq<(int, Seq<char>)>, Seq<(int, int, int)>) {
    let c = content(seg);
    let tr = kept(seg);
    let (o, rs) = collapse(tr, idx, 0);
    (o + term(seg), if tr.len() < c.len() {
        seq![(idx, c.skip(tr.len() as int))]
    } else {
        Seq::empty()
    }, rs)
}

/// What step (2) keeps is a prefix of the content; only spaces and tabs are
/// cut, and when something is cut the result can be restored: either the
/// segment has a final `\r`, or what is kept does not end with one.
pub proof fn lemma_kept(seg: Seq<char>)
    ensures
        kept(seg) == content(seg).take(kept(seg).len() as int),
        kept(seg).len() <= content(seg).len(),
        forall|k: int|
            kept(seg).len() <= k < content(seg).len() ==> #[trigger] content(seg)[k] == ' '
                || content(seg)[k] == '\t',
        kept(seg).len() < content(seg).len() ==> kept(seg) == trim_ws_end(content(seg)) && (
        has_cr(seg) || !has_cr(kept(seg))),
{
    let c = content(seg);
    lemma_trim_ws_end(c);
    if !has_cr(seg) && has_cr(trim_ws_end(c)) {
        assert(c.take(c.len() as int) =~= c);
    }
}

/// Steps (2) and (3) on every segment, numbered from `idx`.
pub open spec fn ws_lines(s: Seq<Seq<char>>, idx: int) -> (Seq<Seq<char>>, Seq<(int, Seq<char>)>, Seq<(int, int, int)>)
    decreases s.len(),
{
    if s.len() == 0 {
        (Seq::empty(), Seq::empty(), Seq::empty())
    } else {
        let (o, t, r) = ws_line(s[0], idx);
        let (os, ts, rs) = ws_lines(s.skip(1), idx + 1);
        (seq![o] + os, t + ts, r + rs)
    }
}

/// The whole stage: the compressed segments and the map.
pub open spec fn ws_compress_spec(s: Seq<Seq<char>>) -> (Seq<Seq<char>>, WsModel) {
    let (sq, blanks) = squeeze(s, 0);
    let (outs, trailing, runs) = ws_lines(sq, 0);
    (outs, WsModel { blanks, trailing, runs })
}

/// Every segment's UTF-8 length fits in `usize`, so byte offsets do.
pub open spec fn offsets_fit(s: Seq<Seq<char>>) -> bool {
    forall|k: int| 0 <= k < s.len() ==> utf8_len(#[trigger] s[k]) <= usize::MAX
}

/// A blank run is within the list, blank, and maximal.
pub proof fn lemma_blank_run(s: Seq<Seq<char>>)
    ensures
        blank_run(s) <= s.len(),
        forall|k: int| 0 <= k < blank_run(s) ==> is_blank(#[trigger] s[k]),
        blank_run(s) < s.len() ==> !is_blank(s[blank_run(s) as int]),
    decreases s.len(),
{
    if s.len() > 0 && is_blank(s[0]) {
        lemma_blank_run(s.skip(1));
        assert forall|k: int| 0 <= k < blank_run(s) implies is_blank(#[trigger] s[k]) by {
            if k > 0 {
                assert(s[k] == s.skip(1)[k - 1]);
            }
        }
        if blank_run(s) < s.len() {
            assert(s[blank_run(s) as int] == s.skip(1)[blank_run(s.skip(1)) as int]);
        }
    }
}

proof fn lemma_blank_run_is(s: Seq<Seq<char>>, m: int)
    requires
        0 <= m <= s.len(),
        forall|k: int| 0 <= k < m ==> is_blank(#[trigger] s[k]),
        m == s.len() || !is_blank(s[m]),
    ensures
        blank_run(s) == m,
    decreases m,
{
    if m > 0 {
        let t = s.skip(1);
        assert forall|k: int| 0 <= k < m - 1 implies is_blank(#[trigger] t[k]) by {
            assert(t[k] == s[k + 1]);
        }
        if m - 1 < t.len() {
            assert(t[m - 1] == s[m]);
        }
        lemma_blank_run_is(t, m - 1);
        assert(is_blank(s[0]));
    } else if s.len() > 0 {
        assert(!is_blank(s[0]));
    }
}

/// A space run is within the text, all spaces, and maximal.
pub proof fn lemma_space_run(t: Seq<char>)
    ensures
        space_run(t) <= t.len(),
        forall|k: int| 0 <= k < space_run(t) ==> #[trigger] t[k] == ' ',
        space_run(t) < t.len() ==> t[space_run(t) as int] != ' ',
    decreases t.len(),
{
    if t.len() > 0 && t[0] == ' ' {
        lemma_space_run(t.skip(1));
        assert forall|k: int| 0 <= k < space_run(t) implies #[trigger] t[k] == ' ' by {
            if k > 0 {
                assert(t[k] == t.skip(1)[k - 1]);
            }
        }
        if space_run(t) < t.len() {
            assert(t[space_run(t) as int] == t.skip(1)[space_run(t.skip(1)) as int]);
        }
    }
}

proof fn lemma_space_run_is(t: Seq<char>, m: int)
    requires
        0 <= m <= t.len(),
        forall|k: int| 0 <= k < m ==> #[trigger] t[k] == ' ',
        m == t.len() || t[m] != ' ',
    ensures
        space_run(t) == m,
    decreases m,
{
    if m > 0 {
        let u = t.skip(1);
        assert forall|k: int| 0 <= k < m - 1 implies #[trigger] u[k] == ' ' by {
            assert(u[k] == t[k + 1]);
        }
        if m - 1 < u.len() {
            assert(u[m - 1] == t[m]);
        }
        lemma_space_run_is(u, m - 1);
        assert(t[0] == ' ');
    }
}

/// Trimming keeps a prefix that does not end with a space or tab, and cuts
/// only spaces and tabs.
pub proof fn lemma_trim_ws_end(t: Seq<char>)
    ensures
        trim_ws_end(t) == t.take(trim_ws_end(t).len() as int),
        trim_ws_end(t).len() <= t.len(),
        trim_ws_end(t).len() > 0 ==> trim_ws_end(t).last() != ' ' && trim_ws_end(t).last() != '\t',
        forall|k: int|
            trim_ws_end(t).len() <= k < t.len() ==> #[trigger] t[k] == ' ' || t[k] == '\t',
    decreases t.len(),
{
    if t.len() > 0 && (t.last() == ' ' || t.last() == '\t') {
        lemma_trim_ws_end(t.drop_last());
        let n = trim_ws_end(t).len() as int;
        assert(t.drop_last().take(n) =~= t.take(n));
        assert forall|k: int| n <= k < t.len() implies #[trigger] t[k] == ' ' || t[k] == '\t' by {
            if k < t.len() - 1 {
                assert(t[k] == t.drop_last()[k]);
            }
        }
    } else {
        assert(t.take(t.len() as int) =~= t);
    }
}

proof fn lemma_trim_ws_end_is(t: Seq<char>, n: int)
    requires
        0 <= n <= t.len(),
        n == 0 || (t[n - 1] != ' ' && t[n - 1] != '\t'),
        forall|k: int| n <= k < t.len() ==> #[trigger] t[k] == ' ' || t[k] == '\t',
    ensures
        trim_ws_end(t) == t.take(n),
    decreases t.len(),
{
    if n < t.len() {
        assert(t[t.len() - 1] == ' ' || t[t.len() - 1] == '\t');
        let u = t.drop_last();
        assert forall|k: int| n <= k < u.len() implies #[trigger] u[k] == ' ' || u[k] == '\t' by {
            assert(u[k] == t[k]);
        }
        if n > 0 {
            assert(u[n - 1] == t[n - 1]);
        }
        lemma_trim_ws_end_is(u, n);
        assert(u.take(n) =~= t.take(n));
    } else {
        assert(t.take(n) =~= t);
        if t.len() > 0 {
            assert(t.last() == t[n - 1]);
        }
    }
}

// ---------------------------------------------------------------------------
// Compression
// ---------------------------------------------------------------------------

fn is_blank_exec(seg: &[char]) -> (r: bool)
    ensures
        r == is_blank(seg@),
{
    let mut j: usize = 0;
    while j < seg.len()
        invariant
            j <= seg@.len(),
            forall|k: int| 0 <= k < j ==> is_ws_char(#[trigger] seg@[k]),
        decreases seg@.len() - j,
    {
        let c = seg[j];
        if !(c == ' ' || c == '\t' || c == '\r') {
            assert(!is_ws_char(seg@[j as int]));
            return false;
        }
        j += 1;
    }
    true
}

/// Squeezes blank runs, strips trailing whitespace and collapses space runs.
pub fn compress(segs: Vec<String>) -> (r: (Vec<String>, WsMap))
    requires
        offsets_fit(segs.deep_view()),
    ensures
        (r.0.deep_view(), r.1@) == ws_compress_spec(segs.deep_view()),
{
    let v = strings_to_chars(&segs);
    let (out, map) = compress_lines(&v);
    (chars_to_strings(&out), map)
}

/// [`compress`] on character vectors.
pub fn compress_lines(segs: &Vec<Vec<char>>) -> (r: (Vec<Vec<char>>, WsMap))
    requires
        offsets_fit(view_lines(segs@)),
    ensures
        (view_lines(r.0@), r.1@) == ws_compress_spec(view_lines(segs@)),
{
    let (sq, blanks) = squeeze_lines(segs);
    let (outs, trailing, runs) = strip_lines(&sq);
    let map = WsMap { blanks, trailing, runs };
    proof {
        let m = map@;
        let spec = ws_compress_spec(view_lines(segs@));
        assert(m.blanks =~= spec.1.blanks);
        assert(m.trailing =~= spec.1.trailing);
        assert(m.runs =~= spec.1.runs);
    }
    (outs, map)
}

/// The view of the removed-run list.
pub open spec fn blanks_view(b: Seq<(usize, Vec<String>)>) -> Seq<(int, Seq<Seq<char>>)> {
    Seq::new(b.len(), |i: int| (b[i].0 as int, b[i].1.deep_view()))
}

/// Step (1).
fn squeeze_lines(segs: &Vec<Vec<char>>) -> (r: (Vec<Vec<char>>, Vec<(usize, Vec<String>)>))
    requires
        offsets_fit(view_lines(segs@)),
    ensures
        (view_lines(r.0@), blanks_view(r.1@)) == squeeze(view_lines(segs@), 0),
        offsets_fit(view_lines(r.0@)),
{
    let ghost s = view_lines(segs@);
    let mut out: Vec<Vec<char>> = Vec::new();
    let mut blanks: Vec<(usize, Vec<String>)> = Vec::new();
    let mut i: usize = 0;
    assert(s.skip(0) =~= s);
    assert(view_lines(out@) + squeeze(s.skip(0), 0).0 =~= squeeze(s, 0).0);
    assert(blanks_view(blanks@) + squeeze(s.skip(0), 0).1 =~= squeeze(s, 0).1);
    while i < segs.len()
        invariant
            s == view_lines(segs@),
            offsets_fit(s),
            i <= segs@.len(),
            view_lines(out@) + squeeze(s.skip(i as int), out@.len() as int).0 == squeeze(s, 0).0,
            blanks_view(blanks@) + squeeze(s.skip(i as int), out@.len() as int).1 == squeeze(s, 0).1,
            offsets_fit(view_lines(out@)),
        decreases segs@.len() - i,
    {
        let ghost rest = s.skip(i as int);
        let ghost o0 = view_lines(out@);
        let ghost b0 = blanks_view(blanks@);
        let ghost base = out@.len() as int;
        assert(rest[0] == s[i as int]);
        if is_blank_exec(segs[i].as_slice()) {
            let start = i;
            while i < segs.len() && is_blank_exec(segs[i].as_slice())
                invariant
                    s == view_lines(segs@),
                    start <= i <= segs@.len(),
                    forall|k: int| start <= k < i ==> is_blank(#[trigger] s[k]),
                decreases segs@.len() - i,
            {
                i += 1;
            }
            let run = i - start;
            proof {
                assert forall|k: int| 0 <= k < run implies is_blank(#[trigger] rest[k]) by {
                    assert(rest[k] == s[start + k]);
                }
                if run < rest.len() {
                    assert(rest[run as int] == s[i as int]);
                }
                lemma_blank_run_is(rest, run as int);
                assert(rest.skip(run as int) =~= s.skip(i as int));
            }
            if run >= 3 {
                out.push(clone_chars(segs[start].as_slice()));
                out.push(clone_chars(segs[start + 1].as_slice()));
                let mut removed: Vec<Vec<char>> = Vec::new();
                let mut k: usize = start + 2;
                while k < i
                    invariant
                        s == view_lines(segs@),
                        start + 2 <= k <= i <= segs@.len(),
                        view_lines(removed@) == s.subrange(start + 2, k as int),
                    decreases i - k,
                {
                    let ghost prev = view_lines(removed@);
                    removed.push(clone_chars(segs[k].as_slice()));
                    k += 1;
                    assert(view_lines(removed@) =~= prev.push(s[k - 1]));
                    assert(view_lines(removed@) =~= s.subrange(start + 2, k as int));
                }
                let kept: usize = out.len() - 1;
                blanks.push((kept, chars_to_strings(&removed)));
                proof {
                    assert(rest.subrange(2, run as int) =~= s.subrange(start + 2, i as int));
                    assert(view_lines(out@) =~= o0 + seq![rest[0], rest[1]]);
                    assert(blanks_view(blanks@) =~= b0 + seq![(base + 1, rest.subrange(2, run as int))]);
                    assert(view_lines(out@) + squeeze(s.skip(i as int), out@.len() as int).0
                        =~= o0 + squeeze(rest, base).0);
                    assert(blanks_view(blanks@) + squeeze(s.skip(i as int), out@.len() as int).1
                        =~= b0 + squeeze(rest, base).1);
                }
            } else {
                let mut k: usize = start;
                while k < i
                    invariant
                        s == view_lines(segs@),
                        offsets_fit(s),
                        start <= k <= i <= segs@.len(),
                        view_lines(out@) == o0 + s.subrange(start as int, k as int),
                        offsets_fit(view_lines(out@)),
                    decreases i - k,
                {
                    let ghost prev = view_lines(out@);
                    out.push(clone_chars(segs[k].as_slice()));
                    k += 1;
                    assert(view_lines(out@) =~= prev.push(s[k - 1]));
                    assert(view_lines(out@) =~= o0 + s.subrange(start as int, k as int));
                }
                proof {
                    assert(s.subrange(start as int, i as int) =~= rest.take(run as int));
                    assert(view_lines(out@) + squeeze(s.skip(i as int), out@.len() as int).0
                        =~= o0 + squeeze(rest, base).0);
                    assert(blanks_view(blanks@) =~= b0);
                }
            }
        } else {
            out.push(clone_chars(segs[i].as_slice()));
            i += 1;
            proof {
                assert(rest.skip(1) =~= s.skip(i as int));
                assert(view_lines(out@) =~= o0 + seq![rest[0]]);
                assert(view_lines(out@) + squeeze(s.skip(i as int), out@.len() as int).0
                    =~= o0 + squeeze(rest, base).0);
                assert(blanks_view(blanks@) =~= b0);
            }
        }
    }
    proof {
        assert(s.skip(i as int) =~= Seq::<Seq<char>>::empty());
        assert(view_lines(out@) + Seq::<Seq<char>>::empty() =~= view_lines(out@));
        assert(blanks_view(blanks@) + Seq::<(int, Seq<Seq<char>>)>::empty() =~= blanks_view(blanks@));
    }
    (out, blanks)
}

/// The view of the stripped-whitespace list.
pub open spec fn trailing_view(t: Seq<(usize, String)>) -> Seq<(int, Seq<char>)> {
    Seq::new(t.len(), |i: int| (t[i].0 as int, t[i].1@))
}

/// The view of the collapsed-run list.
pub open spec fn runs_view(r: Seq<(usize, usize, usize)>) -> Seq<(int, int, int)> {
    Seq::new(r.len(), |i: int| (r[i].0 as int, r[i].1 as int, r[i].2 as int))
}

/// Steps (2) and (3) on every segment.
fn strip_lines(sq: &Vec<Vec<char>>) -> (r: (Vec<Vec<char>>, Vec<(usize, String)>, Vec<(usize, usize, usize)>))
    requires
        offsets_fit(view_lines(sq@)),
    ensures
        (view_lines(r.0@), trailing_view(r.1@), runs_view(r.2@)) == ws_lines(view_lines(sq@), 0),
{
    let ghost s = view_lines(sq@);
    let mut outs: Vec<Vec<char>> = Vec::new();
    let mut trailing: Vec<(usize, String)> = Vec::new();
    let mut runs: Vec<(usize, usize, usize)> = Vec::new();
    let mut idx: usize = 0;
    assert(s.skip(0) =~= s);
    assert(view_lines(outs@) + ws_lines(s, 0).0 =~= ws_lines(s, 0).0);
    assert(trailing_view(trailing@) + ws_lines(s, 0).1 =~= ws_lines(s, 0).1);
    assert(runs_view(runs@) + ws_lines(s, 0).2 =~= ws_lines(s, 0).2);
    while idx < sq.len()
        invariant
            s == view_lines(sq@),
            offsets_fit(s),
            idx <= sq@.len(),
            outs@.len() == idx,
            view_lines(outs@) + ws_lines(s.skip(idx as int), idx as int).0 == ws_lines(s, 0).0,
            trailing_view(trailing@) + ws_lines(s.skip(idx as int), idx as int).1 == ws_lines(s, 0).1,
            runs_view(runs@) + ws_lines(s.skip(idx as int), idx as int).2 == ws_lines(s, 0).2,
        decreases sq@.len() - idx,
    {
        let ghost rest = s.skip(idx as int);
        let ghost o0 = view_lines(outs@);
        let ghost t0 = trailing_view(trailing@);
        let ghost r0 = runs_view(runs@);
        assert(rest[0] == s[idx as int]);
        let (o, mut t, mut rs) = strip_line(sq[idx].as_slice(), idx);
        let ghost line = ws_line(s[idx as int], idx as int);
        let ghost tv = trailing_view(t@);
        let ghost rv = runs_view(rs@);
        outs.push(o);
        trailing.append(&mut t);
        runs.append(&mut rs);
        assert(trailing_view(trailing@) =~= t0 + tv);
        assert(runs_view(runs@) =~= r0 + rv);
        idx += 1;
        proof {
            assert(rest.skip(1) =~= s.skip(idx as int));
            assert(view_lines(outs@) =~= o0.push(line.0));
            assert(view_lines(outs@) + ws_lines(s.skip(idx as int), idx as int).0
                =~= o0 + ws_lines(rest, idx - 1).0);
            assert(trailing_view(trailing@) + ws_lines(s.skip(idx as int), idx as int).1
                =~= t0 + ws_lines(rest, idx - 1).1);
            assert(runs_view(runs@) + ws_lines(s.skip(idx as int), idx as int).2
                =~= r0 + ws_lines(rest, idx - 1).2);
        }
    }
    proof {
        assert(s.skip(idx as int) =~= Seq::<Seq<char>>::empty());
        assert(view_lines(outs@) + Seq::<Seq<char>>::empty() =~= view_lines(outs@));
        assert(trailing_view(trailing@) + Seq::<(int, Seq<char>)>::empty() =~= trailing_view(trailing@));
        assert(runs_view(runs@) + Seq::<(int, int, int)>::empty() =~= runs_view(runs@));
    }
    (outs, trailing, runs)
}

/// Steps (2) and (3) on segment `idx`.
fn strip_line(seg: &[char], idx: usize) -> (r: (Vec<char>, Vec<(usize, String)>, Vec<(usize, usize, usize)>))
    requires
        utf8_len(seg@) <= usize::MAX,
    ensures
        (r.0@, trailing_view(r.1@), runs_view(r.2@)) == ws_line(seg@, idx as int),
{
    let n = seg.len();
    let cr = n > 0 && seg[n - 1] == '\r';
    let clen: usize = if cr { n - 1 } else { n };
    let ghost c = content(seg@);
    assert(c =~= seg@.take(clen as int));
    // (2) strip trailing spaces and tabs
    let mut tl: usize = clen;
    while tl > 0 && (seg[tl - 1] == ' ' || seg[tl - 1] == '\t')
        invariant
            tl <= clen <= n == seg@.len(),
            forall|k: int| tl <= k < clen ==> #[trigger] seg@[k] == ' ' || seg@[k] == '\t',
        decreases tl,
    {
        tl -= 1;
    }
    proof {
        assert forall|k: int| tl <= k < c.len() implies #[trigger] c[k] == ' ' || c[k] == '\t' by {
            assert(c[k] == seg@[k]);
        }
        if tl > 0 {
            assert(c[tl - 1] == seg@[tl - 1]);
        }
        lemma_trim_ws_end_is(c, tl as int);
    }
    assert(trim_ws_end(c) =~= seg@.take(tl as int));
    if !cr && tl > 0 && seg[tl - 1] == '\r' {
        // stripping would leave a `\r` at the end: keep the whitespace
        tl = clen;
    }
    let ghost tr = kept(seg@);
    proof {
        lemma_kept(seg@);
    }
    assert(tr =~= seg@.take(tl as int));
    let mut trailing: Vec<(usize, String)> = Vec::new();
    if tl < clen {
        let mut stripped: Vec<char> = Vec::new();
        let mut k: usize = tl;
        while k < clen
            invariant
                tl <= k <= clen <= seg@.len(),
                stripped@ == seg@.subrange(tl as int, k as int),
            decreases clen - k,
        {
            stripped.push(seg[k]);
            k += 1;
            assert(stripped@ =~= seg@.subrange(tl as int, k as int));
        }
        assert(stripped@ =~= c.skip(tr.len() as int));
        trailing.push((idx, string_of(stripped.as_slice())));
    }
    // (3) collapse runs of spaces
    let mut out: Vec<char> = Vec::new();
    let mut runs: Vec<(usize, usize, usize)> = Vec::new();
    let mut off: usize = 0;
    let mut j: usize = 0;
    proof {
        lemma_utf8_len_take(seg@, tl as int);
        assert(tr.skip(0) =~= tr);
        assert(tr.take(0) =~= Seq::<char>::empty());
    }
    assert(out@ + collapse(tr.skip(0), idx as int, 0).0 =~= collapse(tr, idx as int, 0).0);
    assert(runs_view(runs@) + collapse(tr.skip(0), idx as int, 0).1 =~= collapse(tr, idx as int, 0).1);
    while j < tl
        invariant
            tl <= seg@.len(),
            tr == seg@.take(tl as int),
            utf8_len(tr) <= usize::MAX,
            j <= tl,
            off == utf8_len(out@),
            off <= utf8_len(tr.take(j as int)),
            out@ + collapse(tr.skip(j as int), idx as int, off as int).0 == collapse(tr, idx as int, 0).0,
            runs_view(runs@) + collapse(tr.skip(j as int), idx as int, off as int).1 == collapse(tr, idx as int, 0).1,
        decreases tl - j,
    {
        let ghost rest = tr.skip(j as int);
        let ghost o0 = out@;
        let ghost r0 = runs_view(runs@);
        assert(rest[0] == seg@[j as int]);
        if seg[j] == ' ' {
            let start = j;
            while j < tl && seg[j] == ' '
                invariant
                    start <= j <= tl <= seg@.len(),
                    forall|k: int| start <= k < j ==> #[trigger] seg@[k] == ' ',
                decreases tl - j,
            {
                j += 1;
            }
            let run = j - start;
            proof {
                assert forall|k: int| 0 <= k < run implies #[trigger] rest[k] == ' ' by {
                    assert(rest[k] == seg@[start + k]);
                }
                if run < rest.len() {
                    assert(rest[run as int] == seg@[j as int]);
                }
                lemma_space_run_is(rest, run as int);
                assert(rest.skip(run as int) =~= tr.skip(j as int));
                // the byte offset grows by one, the input by at least one byte
                lemma_utf8_len_append(tr.take(start as int), tr.subrange(start as int, j as int));
                assert(tr.take(start as int) + tr.subrange(start as int, j as int) =~= tr.take(j as int));
                assert(tr.subrange(start as int, j as int).len() >= 1);
                lemma_utf8_len_pos(tr.subrange(start as int, j as int));
                lemma_utf8_len_take(tr, j as int);
                lemma_utf8_len_append(out@, seq![' ']);
                lemma_utf8_len_single(' ');
            }
            if run >= 2 {
                runs.push((idx, off, run));
            }
            out.push(' ');
            off = off + 1;
            assert(out@ =~= o0 + seq![' ']);
            proof {
                assert(out@ + collapse(tr.skip(j as int), idx as int, off as int).0 =~= o0 + collapse(rest, idx as int, off - 1).0);
                assert(runs_view(runs@) + collapse(tr.skip(j as int), idx as int, off as int).1 =~= r0 + collapse(rest, idx as int, off - 1).1);
            }
        } else {
            let c0 = seg[j];
            let w = utf8_width_exec(c0);
            proof {
                lemma_utf8_len_append(tr.take(j as int), seq![c0]);
                assert(tr.take(j as int) + seq![c0] =~= tr.take(j + 1));
                lemma_utf8_len_single(c0);
                lemma_utf8_len_take(tr, j + 1);
                lemma_utf8_len_append(out@, seq![c0]);
                assert(rest.skip(1) =~= tr.skip(j + 1));
            }
            out.push(c0);
            off = off + w;
            assert(out@ =~= o0 + seq![c0]);
            j += 1;
            proof {
                assert(out@ + collapse(tr.skip(j as int), idx as int, off as int).0 =~= o0 + collapse(rest, idx as int, off - w).0);
                assert(runs_view(runs@) + collapse(tr.skip(j as int), idx as int, off as int).1 =~= r0 + collapse(rest, idx as int, off - w).1);
            }
        }
    }
    proof {
        assert(tr.skip(j as int) =~= Seq::<char>::empty());
        assert(out@ + Seq::<char>::empty() =~= out@);
        assert(runs_view(runs@) + Seq::<(int, int, int)>::empty() =~= runs_view(runs@));
    }
    let ghost collapsed = out@;
    if cr {
        out.push('\r');
    }
    assert(out@ =~= collapsed + term(seg@));
    proof {
        if tl < clen {
            assert(trailing_view(trailing@) =~= seq![(idx as int, c.skip(tr.len() as int))]);
        } else {
            assert(trailing_view(trailing@) =~= Seq::<(int, Seq<char>)>::empty());
        }
    }
    (out, trailing, runs)
}

proof fn lemma_utf8_len_pos(s: Seq<char>)
    requires
        s.len() >= 1,
    ensures
        utf8_len(s) >= 1,
{
    lemma_utf8_len_append(s.drop_last(), seq![s.last()]);
    lemma_utf8_len_single(s.last());
    assert(s.drop_last() + seq![s.last()] =~= s);
}

// ---------------------------------------------------------------------------
// Expansion, as mathematical functions
// ---------------------------------------------------------------------------

/// Applies the map entries `es` to `s` from the last entry to the first, as
/// the expansion loops do; the first failing entry (in that order) is the
/// error.
pub open spec fn fold_back<E>(
    s: Seq<Seq<char>>,
    es: Seq<E>,
    step: spec_fn(Seq<Seq<char>>, E) -> Result<Seq<Seq<char>>, Seq<char>>,
) -> Result<Seq<Seq<char>>, Seq<char>>
    decreases es.len(),
{
    if es.len() == 0 {
        Ok(s)
    } else {
        match fold_back(s, es.skip(1), step) {
            Ok(t) => step(t, es[0]),
            Err(e) => Err(e),
        }
    }
}

/// The index of the character that starts at byte `off` of `seg`.
pub open spec fn char_at_byte(seg: Seq<char>, off: int) -> Option<int>
    decreases seg.len(),
{
    if seg.len() == 0 {
        None
    } else if off == 0 {
        Some(0)
    } else if off < utf8_width(seg[0]) {
        None
    } else {
        match char_at_byte(seg.skip(1), off - utf8_width(seg[0])) {
            Some(k) => Some(k + 1),
            None => None,
        }
    }
}

/// `n` spaces.
pub open spec fn spaces(n: int) -> Seq<char> {
    Seq::new(n as nat, |_i: int| ' ')
}

/// Error messages of the whitespace expansion.
pub open spec fn run_missing_msg(idx: int) -> Seq<char> {
    "corrupt map: ws run segment "@ + decimal(idx as nat) + " missing"@
}

pub open spec fn run_length_msg(len: int) -> Seq<char> {
    "corrupt map: ws run length "@ + decimal(len as nat) + " < 2"@
}

pub open spec fn run_space_msg(idx: int, off: int) -> Seq<char> {
    "corrupt map: ws run at segment "@ + decimal(idx as nat) + " offset "@ + decimal(off as nat)
        + " does not point at a space"@
}

pub open spec fn trailing_missing_msg(idx: int) -> Seq<char> {
    "corrupt map: ws trailing segment "@ + decimal(idx as nat) + " missing"@
}

pub open spec fn blanks_range_msg(idx: int) -> Seq<char> {
    "corrupt map: ws blanks index "@ + decimal(idx as nat) + " out of range"@
}

/// Undoes one collapsed run: the space at byte `off` of segment `idx` becomes
/// `len` spaces.
pub open spec fn undo_run(s: Seq<Seq<char>>, e: (int, int, int)) -> Result<Seq<Seq<char>>, Seq<char>> {
    let (idx, off, len) = e;
    if !(0 <= idx < s.len()) {
        Err(run_missing_msg(idx))
    } else if len < 2 {
        Err(run_length_msg(len))
    } else {
        match char_at_byte(s[idx], off) {
            Some(k) => if s[idx][k] == ' ' {
                Ok(s.update(idx, s[idx].take(k) + spaces(len) + s[idx].skip(k + 1)))
            } else {
                Err(run_space_msg(idx, off))
            },
            None => Err(run_space_msg(idx, off)),
        }
    }
}

/// Puts back stripped trailing whitespace, before a final `\r` if there is one.
pub open spec fn undo_trailing(s: Seq<Seq<char>>, e: (int, Seq<char>)) -> Result<Seq<Seq<char>>, Seq<char>> {
    let (idx, stripped) = e;
    if !(0 <= idx < s.len()) {
        Err(trailing_missing_msg(idx))
    } else if has_cr(s[idx]) {
        Ok(s.update(idx, s[idx].drop_last() + stripped + seq!['\r']))
    } else {
        Ok(s.update(idx, s[idx] + stripped))
    }
}

/// Re-inserts removed blank segments after segment `idx`.
pub open spec fn undo_blanks(s: Seq<Seq<char>>, e: (int, Seq<Seq<char>>)) -> Result<Seq<Seq<char>>, Seq<char>> {
    let (idx, removed) = e;
    if !(0 <= idx < s.len()) {
        Err(blanks_range_msg(idx))
    } else {
        Ok(s.take(idx + 1) + removed + s.skip(idx + 1))
    }
}

/// The inverse steps as functions, for [`fold_back`].
pub open spec fn run_step() -> spec_fn(Seq<Seq<char>>, (int, int, int)) -> Result<Seq<Seq<char>>, Seq<char>> {
    |x: Seq<Seq<char>>, e: (int, int, int)| undo_run(x, e)
}

pub open spec fn trailing_step() -> spec_fn(Seq<Seq<char>>, (int, Seq<char>)) -> Result<Seq<Seq<char>>, Seq<char>> {
    |x: Seq<Seq<char>>, e: (int, Seq<char>)| undo_trailing(x, e)
}

pub open spec fn blanks_step() -> spec_fn(Seq<Seq<char>>, (int, Seq<Seq<char>>)) -> Result<Seq<Seq<char>>, Seq<char>> {
    |x: Seq<Seq<char>>, e: (int, Seq<Seq<char>>)| undo_blanks(x, e)
}

/// The whole inverse stage: runs, then trailing whitespace, then blank runs,
/// each list from its last entry to its first.
pub open spec fn ws_expand_spec(s: Seq<Seq<char>>, m: WsModel) -> Result<Seq<Seq<char>>, Seq<char>> {
    match fold_back(s, m.runs, run_step()) {
        Ok(a) => match fold_back(a, m.trailing, trailing_step()) {
            Ok(b) => fold_back(b, m.blanks, blanks_step()),
            Err(e) => Err(e),
        },
        Err(e) => Err(e),
    }
}

/// Folding from entry `j` on failed, so folding the whole list fails the same way.
pub proof fn lemma_fold_back_err<E>(
    s: Seq<Seq<char>>,
    es: Seq<E>,
    step: spec_fn(Seq<Seq<char>>, E) -> Result<Seq<Seq<char>>, Seq<char>>,
    j: int,
    m: Seq<char>,
)
    requires
        0 <= j <= es.len(),
        fold_back(s, es.skip(j), step) == Err::<Seq<Seq<char>>, Seq<char>>(m),
    ensures
        fold_back(s, es, step) == Err::<Seq<Seq<char>>, Seq<char>>(m),
    decreases j,
{
    if j > 0 {
        let t = es.skip(j - 1);
        assert(t.skip(1) =~= es.skip(j));
        assert(t.len() > 0);
        lemma_fold_back_err(s, es, step, j - 1, m);
    } else {
        assert(es.skip(0) =~= es);
    }
}

/// One more entry folded, from the back.
proof fn lemma_fold_back_step<E>(
    s: Seq<Seq<char>>,
    es: Seq<E>,
    step: spec_fn(Seq<Seq<char>>, E) -> Result<Seq<Seq<char>>, Seq<char>>,
    k: int,
)
    requires
        0 < k <= es.len(),
    ensures
        fold_back(s, es.skip(k - 1), step) == match fold_back(s, es.skip(k), step) {
            Ok(t) => step(t, es[k - 1]),
            Err(e) => Err(e),
        },
{
    let t = es.skip(k - 1);
    assert(t.skip(1) =~= es.skip(k));
    assert(t[0] == es[k - 1]);
}

// ---------------------------------------------------------------------------
// Expansion
// ---------------------------------------------------------------------------

/// The index of the character that starts at byte `off` of `seg`.
fn char_at_byte_exec(seg: &[char], off: usize) -> (r: Option<usize>)
    ensures
        match char_at_byte(seg@, off as int) {
            Some(k) => r == Some(k as usize) && 0 <= k < seg@.len(),
            None => r is None,
        },
{
    let mut j: usize = 0;
    let mut b: usize = 0;
    assert(seg@.skip(0) =~= seg@);
    while j < seg.len()
        invariant
            j <= seg@.len(),
            b <= off,
            char_at_byte(seg@, off as int) == match char_at_byte(seg@.skip(j as int), off - b) {
                Some(k) => Some(k + j),
                None => None::<int>,
            },
        decreases seg@.len() - j,
    {
        let ghost rest = seg@.skip(j as int);
        assert(rest[0] == seg@[j as int]);
        if b == off {
            proof {
                lemma_char_at_byte_bound(seg@, off as int);
            }
            return Some(j);
        }
        let w = utf8_width_exec(seg[j]);
        if off - b < w {
            return None;
        }
        b = b + w;
        j += 1;
        assert(rest.skip(1) =~= seg@.skip(j as int));
    }
    assert(seg@.skip(j as int) =~= Seq::<char>::empty());
    None
}

proof fn lemma_char_at_byte_bound(seg: Seq<char>, off: int)
    ensures
        char_at_byte(seg, off) matches Some(k) ==> 0 <= k < seg.len(),
    decreases seg.len(),
{
    if seg.len() > 0 && off != 0 && off >= utf8_width(seg[0]) {
        lemma_char_at_byte_bound(seg.skip(1), off - utf8_width(seg[0]));
    }
}

/// Restores what [`compress`] removed, using its map.
pub fn expand(segs: Vec<String>, map: &WsMap) -> (r: Result<Vec<String>, TcError>)
    ensures
        match ws_expand_spec(segs.deep_view(), map@) {
            Ok(v) => r is Ok && r->Ok_0.deep_view() == v,
            Err(m) => r is Err && r->Err_0.msg@ == m,
        },
{
    let v = strings_to_chars(&segs);
    match expand_lines(v, map) {
        Ok(out) => Ok(chars_to_strings(&out)),
        Err(e) => Err(e),
    }
}

/// [`expand`] on character vectors.
pub fn expand_lines(segs: Vec<Vec<char>>, map: &WsMap) -> (r: Result<Vec<Vec<char>>, TcError>)
    ensures
        match ws_expand_spec(view_lines(segs@), map@) {
            Ok(v) => r is Ok && view_lines(r->Ok_0@) == v,
            Err(m) => r is Err && r->Err_0.msg@ == m,
        },
{
    let ghost s0 = view_lines(segs@);
    let ghost m = map@;
    let mut work = segs;
    // Inverse of (3): runs, last first.
    let mut k: usize = map.runs.len();
    assert(m.runs.skip(k as int) =~= Seq::<(int, int, int)>::empty());
    while k > 0
        invariant
            k <= map.runs@.len(),
            m == map@,
            s0 == view_lines(segs@),
            fold_back(s0, m.runs.skip(k as int), run_step()) == Ok::<Seq<Seq<char>>, Seq<char>>(view_lines(work@)),
        decreases k,
    {
        proof {
            lemma_fold_back_step(s0, m.runs, run_step(), k as int);
        }
        k -= 1;
        let (idx, off, len) = map.runs[k];
        assert(m.runs[k as int] == (idx as int, off as int, len as int));
        let ghost cur0 = view_lines(work@);
        assert(fold_back(s0, m.runs.skip(k as int), run_step()) == run_step()(cur0, m.runs[k as int]));
        assert(run_step()(cur0, m.runs[k as int]) == undo_run(cur0, m.runs[k as int]));
        if idx >= work.len() {
            proof {
                assert(undo_run(cur0, m.runs[k as int]) == Err::<Seq<Seq<char>>, Seq<char>>(run_missing_msg(idx as int)));
                lemma_fold_back_err(s0, m.runs, run_step(), k as int, run_missing_msg(idx as int));
                assert(ws_expand_spec(s0, m) == Err::<Seq<Seq<char>>, Seq<char>>(run_missing_msg(idx as int)));
            }
            let e = TcError::new(text_with_number("corrupt map: ws run segment ", idx, " missing"));
            assert(e.msg@ == run_missing_msg(idx as int));
            assert(s0 == view_lines(segs@) && m == map@);
            return Err(e);
        }
        if len < 2 {
            proof {
                lemma_fold_back_err(s0, m.runs, run_step(), k as int, run_length_msg(len as int));
            }
            let e = TcError::new(text_with_number("corrupt map: ws run length ", len, " < 2"));
            assert(s0 == view_lines(segs@) && m == map@);
            return Err(e);
        }
        let ghost cur = view_lines(work@);
        assert(cur[idx as int] == work@[idx as int]@);
        let pos = char_at_byte_exec(work[idx].as_slice(), off);
        let ok = match pos {
            Some(p) => work[idx][p] == ' ',
            None => false,
        };
        if !ok {
            proof {
                lemma_fold_back_err(s0, m.runs, run_step(), k as int, run_space_msg(idx as int, off as int));
            }
            let e = TcError::new(
                text_with_two_numbers(
                    "corrupt map: ws run at segment ",
                    idx,
                    " offset ",
                    off,
                    " does not point at a space",
                ),
            );
            assert(s0 == view_lines(segs@) && m == map@);
            return Err(e);
        }
        let p = pos.unwrap();
        let old_seg = clone_chars(work[idx].as_slice());
        let mut new_seg: Vec<char> = Vec::new();
        let mut q: usize = 0;
        while q < p
            invariant
                p < old_seg@.len(),
                q <= p,
                new_seg@ == old_seg@.take(q as int),
            decreases p - q,
        {
            new_seg.push(old_seg[q]);
            q += 1;
            assert(new_seg@ =~= old_seg@.take(q as int));
        }
        let mut q2: usize = 0;
        while q2 < len
            invariant
                q2 <= len,
                new_seg@ == old_seg@.take(p as int) + spaces(q2 as int),
            decreases len - q2,
        {
            new_seg.push(' ');
            q2 += 1;
            assert(new_seg@ =~= old_seg@.take(p as int) + spaces(q2 as int));
        }
        let olen = old_seg.len();
        assert(p < olen);
        let mut q3: usize = p + 1;
        while q3 < old_seg.len()
            invariant
                p < q3 <= old_seg@.len(),
                new_seg@ == old_seg@.take(p as int) + spaces(len as int) + old_seg@.subrange(p + 1, q3 as int),
            decreases old_seg@.len() - q3,
        {
            new_seg.push(old_seg[q3]);
            q3 += 1;
            assert(new_seg@ =~= old_seg@.take(p as int) + spaces(len as int) + old_seg@.subrange(p + 1, q3 as int));
        }
        assert(old_seg@.subrange(p + 1, old_seg@.len() as int) =~= old_seg@.skip(p + 1));
        work.set(idx, new_seg);
        assert(view_lines(work@) =~= cur.update(idx as int, cur[idx as int].take(p as int) + spaces(len as int) + cur[idx as int].skip(p + 1)));
    }
    assert(m.runs.skip(0) =~= m.runs);
    let ghost a = view_lines(work@);
    // Inverse of (2): trailing whitespace, last first.
    let mut k: usize = map.trailing.len();
    assert(m.trailing.skip(k as int) =~= Seq::<(int, Seq<char>)>::empty());
    while k > 0
        invariant
            k <= map.trailing@.len(),
            m == map@,
            s0 == view_lines(segs@),
            fold_back(s0, m.runs, run_step()) == Ok::<Seq<Seq<char>>, Seq<char>>(a),
            fold_back(a, m.trailing.skip(k as int), trailing_step()) == Ok::<Seq<Seq<char>>, Seq<char>>(view_lines(work@)),
        decreases k,
    {
        proof {
            lemma_fold_back_step(a, m.trailing, trailing_step(), k as int);
        }
        k -= 1;
        let idx = map.trailing[k].0;
        let stripped = chars_of(map.trailing[k].1.as_str());
        assert(m.trailing[k as int] == (idx as int, stripped@));
        if idx >= work.len() {
            proof {
                lemma_fold_back_err(a, m.trailing, trailing_step(), k as int, trailing_missing_msg(idx as int));
            }
            let e = TcError::new(text_with_number("corrupt map: ws trailing segment ", idx, " missing"));
            assert(s0 == view_lines(segs@) && m == map@);
            return Err(e);
        }
        let ghost cur = view_lines(work@);
        let mut new_seg = clone_chars(work[idx].as_slice());
        assert(new_seg@ == cur[idx as int]);
        let n = new_seg.len();
        if n > 0 && new_seg[n - 1] == '\r' {
            new_seg.pop();
            crate::text::extend_chars(&mut new_seg, stripped.as_slice());
            new_seg.push('\r');
            assert(new_seg@ =~= cur[idx as int].drop_last() + stripped@ + seq!['\r']);
        } else {
            crate::text::extend_chars(&mut new_seg, stripped.as_slice());
        }
        let ghost nv = new_seg@;
        work.set(idx, new_seg);
        assert(view_lines(work@) =~= cur.update(idx as int, nv));
        assert(undo_trailing(cur, m.trailing[k as int]) == Ok::<Seq<Seq<char>>, Seq<char>>(view_lines(work@)));
    }
    assert(m.trailing.skip(0) =~= m.trailing);
    let ghost b = view_lines(work@);
    // Inverse of (1): blank runs, last first, so earlier indices stay valid.
    let mut k: usize = map.blanks.len();
    assert(m.blanks.skip(k as int) =~= Seq::<(int, Seq<Seq<char>>)>::empty());
    while k > 0
        invariant
            k <= map.blanks@.len(),
            m == map@,
            s0 == view_lines(segs@),
            fold_back(s0, m.runs, run_step()) == Ok::<Seq<Seq<char>>, Seq<char>>(a),
            fold_back(a, m.trailing, trailing_step()) == Ok::<Seq<Seq<char>>, Seq<char>>(b),
            fold_back(b, m.blanks.skip(k as int), blanks_step()) == Ok::<Seq<Seq<char>>, Seq<char>>(view_lines(work@)),
        decreases k,
    {
        proof {
            lemma_fold_back_step(b, m.blanks, blanks_step(), k as int);
        }
        k -= 1;
        let idx = map.blanks[k].0;
        let removed = strings_to_chars(&map.blanks[k].1);
        assert(m.blanks[k as int] == (idx as int, view_lines(removed@)));
        if idx >= work.len() {
            proof {
                lemma_fold_back_err(b, m.blanks, blanks_step(), k as int, blanks_range_msg(idx as int));
            }
            let e = TcError::new(text_with_number("corrupt map: ws blanks index ", idx, " out of range"));
            assert(s0 == view_lines(segs@) && m == map@);
            return Err(e);
        }
        let ghost cur = view_lines(work@);
        let mut q: usize = 0;
        while q < removed.len()
            invariant
                idx < cur.len(),
                cur.len() == work@.len() - q,
                q <= removed@.len(),
                view_lines(work@) == cur.take(idx + 1) + view_lines(removed@).take(q as int) + cur.skip(idx + 1),
            decreases removed@.len() - q,
        {
            let ghost prev = view_lines(work@);
            let wl = work.len();
            let pos = idx + 1 + q;
            let item = clone_chars(removed[q].as_slice());
            work.insert(pos, item);
            assert(view_lines(work@) =~= prev.insert(pos as int, view_lines(removed@)[q as int]));
            q += 1;
            assert(view_lines(work@) =~= cur.take(idx + 1) + view_lines(removed@).take(q as int) + cur.skip(idx + 1));
        }
        assert(view_lines(removed@).take(removed@.len() as int) =~= view_lines(removed@));
    }
    assert(m.blanks.skip(0) =~= m.blanks);
    Ok(work)
}

// ---------------------------------------------------------------------------
// Round trip
// ---------------------------------------------------------------------------

/// What a segment is once its runs are restored but its trailing whitespace
/// is not yet.
pub open spec fn mid_line(seg: Seq<char>) -> Seq<char> {
    kept(seg) + term(seg)
}

/// [`mid_line`] of every segment.
pub open spec fn mid_lines(s: Seq<Seq<char>>) -> Seq<Seq<char>> {
    Seq::new(s.len(), |i: int| mid_line(s[i]))
}

/// Folding a concatenation folds the second part first.
pub proof fn lemma_fold_back_append<E>(
    s: Seq<Seq<char>>,
    a: Seq<E>,
    c: Seq<E>,
    step: spec_fn(Seq<Seq<char>>, E) -> Result<Seq<Seq<char>>, Seq<char>>,
)
    ensures
        fold_back(s, a + c, step) == match fold_back(s, c, step) {
            Ok(t) => fold_back(t, a, step),
            Err(e) => Err(e),
        },
    decreases a.len(),
{
    if a.len() == 0 {
        assert(a + c =~= c);
    } else {
        lemma_fold_back_append(s, a.skip(1), c, step);
        assert((a + c).skip(1) =~= a.skip(1) + c);
        assert((a + c)[0] == a[0]);
    }
}

/// The character that starts right after `a` is found at byte `utf8_len(a)`.
proof fn lemma_char_at_byte_after(a: Seq<char>, b: Seq<char>)
    requires
        b.len() > 0,
    ensures
        char_at_byte(a + b, utf8_len(a) as int) == Some(a.len() as int),
    decreases a.len(),
{
    if a.len() == 0 {
        assert(a + b =~= b);
    } else {
        let t = a.skip(1);
        lemma_char_at_byte_after(t, b);
        lemma_utf8_len_append(seq![a[0]], t);
        assert(seq![a[0]] + t =~= a);
        lemma_utf8_len_single(a[0]);
        assert((a + b).skip(1) =~= t + b);
        assert((a + b)[0] == a[0]);
    }
}

/// Undoing the runs of one segment restores its collapsed spaces.
proof fn lemma_collapse_undo(s: Seq<Seq<char>>, idx: int, t: Seq<char>, a: Seq<char>, tm: Seq<char>)
    requires
        0 <= idx < s.len(),
        s[idx] == a + collapse(t, idx, utf8_len(a) as int).0 + tm,
    ensures
        fold_back(s, collapse(t, idx, utf8_len(a) as int).1, run_step())
            == Ok::<Seq<Seq<char>>, Seq<char>>(s.update(idx, a + t + tm)),
    decreases t.len(),
{
    let off = utf8_len(a) as int;
    if t.len() == 0 {
        assert(a + t + tm =~= s[idx]);
        assert(s.update(idx, a + t + tm) =~= s);
    } else if t[0] == ' ' {
        lemma_space_run(t);
        let r = space_run(t) as int;
        let rest = t.skip(r);
        let a2 = a + seq![' '];
        lemma_utf8_len_append(a, seq![' ']);
        lemma_utf8_len_single(' ');
        let (o2, rs2) = collapse(rest, idx, off + 1);
        assert(s[idx] =~= a2 + o2 + tm);
        lemma_collapse_undo(s, idx, rest, a2, tm);
        let s1 = s.update(idx, a2 + rest + tm);
        assert(t =~= spaces(r) + rest) by {
            assert forall|k: int| 0 <= k < r implies #[trigger] t[k] == ' ' by {}
        }
        if r >= 2 {
            let rs = collapse(t, idx, off).1;
            assert(rs == seq![(idx, off, r)] + rs2);
            assert(rs.skip(1) =~= rs2);
            assert(s1[idx] =~= a + (seq![' '] + (rest + tm)));
            lemma_char_at_byte_after(a, seq![' '] + (rest + tm));
            assert(s1[idx][a.len() as int] == ' ');
            assert(s1[idx].take(a.len() as int) =~= a);
            assert(s1[idx].skip(a.len() as int + 1) =~= rest + tm);
            assert(a + spaces(r) + (rest + tm) =~= a + t + tm);
            assert(s1.update(idx, a + t + tm) =~= s.update(idx, a + t + tm));
        } else {
            assert(spaces(1) =~= seq![' ']);
            assert(a2 + rest + tm =~= a + t + tm);
            assert(s1 =~= s.update(idx, a + t + tm));
        }
    } else {
        let c = t[0];
        let rest = t.skip(1);
        let a2 = a + seq![c];
        lemma_utf8_len_append(a, seq![c]);
        lemma_utf8_len_single(c);
        let (o2, rs2) = collapse(rest, idx, off + utf8_width(c));
        assert(s[idx] =~= a2 + o2 + tm);
        lemma_collapse_undo(s, idx, rest, a2, tm);
        assert(a2 + rest =~= a + t);
    }
}

/// Undoing every run gives each segment back without its trailing whitespace.
proof fn lemma_lines_runs(x: Seq<Seq<char>>, sq: Seq<Seq<char>>)
    ensures
        fold_back(x + ws_lines(sq, x.len() as int).0, ws_lines(sq, x.len() as int).2, run_step())
            == Ok::<Seq<Seq<char>>, Seq<char>>(x + mid_lines(sq)),
    decreases sq.len(),
{
    let idx = x.len() as int;
    if sq.len() == 0 {
        assert(x + ws_lines(sq, idx).0 =~= x);
        assert(x + mid_lines(sq) =~= x);
    } else {
        let s0 = sq[0];
        let rest = sq.skip(1);
        let (o0, t0, r0) = ws_line(s0, idx);
        let x2 = x.push(o0);
        lemma_lines_runs(x2, rest);
        let (os, ts, rs) = ws_lines(rest, idx + 1);
        assert(x + ws_lines(sq, idx).0 =~= x2 + os);
        lemma_fold_back_append(x2 + os, r0, rs, run_step());
        let y = x2 + mid_lines(rest);
        let c = content(s0);
        let tr = kept(s0);
        assert(o0 == collapse(tr, idx, 0).0 + term(s0));
        assert(y[idx] =~= Seq::<char>::empty() + collapse(tr, idx, utf8_len(Seq::<char>::empty()) as int).0 + term(s0));
        lemma_collapse_undo(y, idx, tr, Seq::<char>::empty(), term(s0));
        assert(y.update(idx, Seq::<char>::empty() + tr + term(s0)) =~= x + mid_lines(sq));
    }
}

/// Putting trailing whitespace back restores every segment.
proof fn lemma_lines_trailing(x: Seq<Seq<char>>, sq: Seq<Seq<char>>)
    ensures
        fold_back(x + mid_lines(sq), ws_lines(sq, x.len() as int).1, trailing_step())
            == Ok::<Seq<Seq<char>>, Seq<char>>(x + sq),
    decreases sq.len(),
{
    let idx = x.len() as int;
    if sq.len() == 0 {
        assert(x + mid_lines(sq) =~= x);
        assert(x + sq =~= x);
    } else {
        let s0 = sq[0];
        let rest = sq.skip(1);
        let m0 = mid_line(s0);
        let x2 = x.push(m0);
        lemma_lines_trailing(x2, rest);
        let (o0, t0, r0) = ws_line(s0, idx);
        let (os, ts, rs) = ws_lines(rest, idx + 1);
        assert(x + mid_lines(sq) =~= x2 + mid_lines(rest));
        lemma_fold_back_append(x2 + mid_lines(rest), t0, ts, trailing_step());
        let y = x2 + rest;
        let c = content(s0);
        let tr = kept(s0);
        lemma_kept(s0);
        if tr.len() < c.len() {
            let e = (idx, c.skip(tr.len() as int));
            assert(t0 == seq![e]);
            assert(t0.skip(1) =~= Seq::<(int, Seq<char>)>::empty());
            assert(y[idx] == m0);
            assert(fold_back(y, t0.skip(1), trailing_step()) == Ok::<Seq<Seq<char>>, Seq<char>>(y));
            assert(t0[0] == e);
            assert(fold_back(y, t0, trailing_step()) == trailing_step()(y, e));
            assert(fold_back(y, t0, trailing_step()) == undo_trailing(y, e));
            if has_cr(s0) {
                assert(has_cr(m0));
                assert(m0.drop_last() =~= tr);
                assert(tr + c.skip(tr.len() as int) =~= c);
                assert(c + seq!['\r'] =~= s0);
                assert(m0.drop_last() + c.skip(tr.len() as int) + seq!['\r'] =~= s0);
                assert(undo_trailing(y, e) == Ok::<Seq<Seq<char>>, Seq<char>>(y.update(idx, s0)));
            } else {
                assert(m0 =~= tr);
                assert(tr + c.skip(tr.len() as int) =~= c);
                assert(!has_cr(m0));
                assert(undo_trailing(y, e) == Ok::<Seq<Seq<char>>, Seq<char>>(y.update(idx, s0)));
            }
            assert(y.update(idx, s0) =~= x + sq);
        } else {
            assert(t0 =~= Seq::<(int, Seq<char>)>::empty());
            assert(tr =~= c);
            if has_cr(s0) {
                assert(c + seq!['\r'] =~= s0);
            }
            assert(m0 =~= s0);
            assert(y =~= x + sq);
        }
    }
}

/// Re-inserting the removed blank runs gives the segments as they were before squeezing.
proof fn lemma_squeeze_blanks(x: Seq<Seq<char>>, s: Seq<Seq<char>>)
    ensures
        fold_back(x + squeeze(s, x.len() as int).0, squeeze(s, x.len() as int).1, blanks_step())
            == Ok::<Seq<Seq<char>>, Seq<char>>(x + s),
    decreases s.len(),
{
    let base = x.len() as int;
    if s.len() == 0 {
        assert(x + squeeze(s, base).0 =~= x);
        assert(x + s =~= x);
    } else if is_blank(s[0]) {
        lemma_blank_run(s);
        let r = blank_run(s) as int;
        let rest = s.skip(r);
        if r >= 3 {
            let x2 = x + seq![s[0], s[1]];
            lemma_squeeze_blanks(x2, rest);
            let (o, b) = squeeze(rest, base + 2);
            let bl = squeeze(s, base).1;
            assert(x + squeeze(s, base).0 =~= x2 + o);
            assert(bl.skip(1) =~= b);
            assert(bl[0] == (base + 1, s.subrange(2, r)));
            let y = x2 + rest;
            assert(y.take(base + 2) + s.subrange(2, r) + y.skip(base + 2) =~= x + s);
        } else {
            let x2 = x + s.take(r);
            lemma_squeeze_blanks(x2, rest);
            assert(x + squeeze(s, base).0 =~= x2 + squeeze(rest, base + r).0);
            assert(x2 + rest =~= x + s);
        }
    } else {
        let x2 = x.push(s[0]);
        lemma_squeeze_blanks(x2, s.skip(1));
        assert(x + squeeze(s, base).0 =~= x2 + squeeze(s.skip(1), base + 1).0);
        assert(x2 + s.skip(1) =~= x + s);
    }
}

/// Expanding what the whitespace stage produced gives the segments back.
pub proof fn lemma_ws_roundtrip(s: Seq<Seq<char>>)
    ensures
        ws_expand_spec(ws_compress_spec(s).0, ws_compress_spec(s).1) == Ok::<Seq<Seq<char>>, Seq<char>>(s),
{
    let e = Seq::<Seq<char>>::empty();
    let (sq, blanks) = squeeze(s, 0);
    lemma_lines_runs(e, sq);
    assert(e + ws_lines(sq, 0).0 =~= ws_lines(sq, 0).0);
    assert(e + mid_lines(sq) =~= mid_lines(sq));
    lemma_lines_trailing(e, sq);
    assert(e + sq =~= sq);
    lemma_squeeze_blanks(e, s);
    assert(e + s =~= s);
}

// ---------------------------------------------------------------------------
// The shape of the output
// ---------------------------------------------------------------------------

/// No two spaces stand next to each other.
pub open spec fn no_double_space(t: Seq<char>) -> bool {
    forall|j: int| 0 <= j && j + 1 < t.len() ==> !(#[trigger] t[j] == ' ' && t[j + 1] == ' ')
}

/// The segment does not end with a space or a tab.
pub open spec fn no_trailing_blank(t: Seq<char>) -> bool {
    t.len() > 0 ==> t.last() != ' ' && t.last() != '\t'
}

/// No three blank segments stand in a row.
pub open spec fn no_blank_triple(s: Seq<Seq<char>>) -> bool {
    forall|k: int|
        0 <= k && k + 2 < s.len() ==> !(is_blank(#[trigger] s[k]) && is_blank(s[k + 1]) && is_blank(
            s[k + 2],
        ))
}

proof fn lemma_blank_concat(a: Seq<char>, b: Seq<char>)
    ensures
        is_blank(a + b) <==> is_blank(a) && is_blank(b),
{
    if is_blank(a + b) {
        assert forall|j: int| 0 <= j < a.len() implies is_ws_char(#[trigger] a[j]) by {
            assert((a + b)[j] == a[j]);
        }
        assert forall|j: int| 0 <= j < b.len() implies is_ws_char(#[trigger] b[j]) by {
            assert((a + b)[a.len() + j] == b[j]);
        }
    }
    if is_blank(a) && is_blank(b) {
        assert forall|j: int| 0 <= j < (a + b).len() implies is_ws_char(#[trigger] (a + b)[j]) by {
            if j < a.len() {
                assert((a + b)[j] == a[j]);
            } else {
                assert((a + b)[j] == b[j - a.len()]);
            }
        }
    }
}

/// Collapsing keeps the first and last characters and blankness, and leaves
/// no two spaces together.
proof fn lemma_collapse_shape(t: Seq<char>, idx: int, off: int)
    ensures
        no_double_space(collapse(t, idx, off).0),
        is_blank(collapse(t, idx, off).0) <==> is_blank(t),
        t.len() > 0 ==> collapse(t, idx, off).0.len() > 0 && collapse(t, idx, off).0[0] == t[0]
            && collapse(t, idx, off).0.last() == t.last(),
        t.len() == 0 ==> collapse(t, idx, off).0.len() == 0,
    decreases t.len(),
{
    if t.len() > 0 {
        if t[0] == ' ' {
            let r = space_run(t);
            lemma_space_run(t);
            let rest = t.skip(r as int);
            let o = collapse(rest, idx, off + 1).0;
            lemma_collapse_shape(rest, idx, off + 1);
            assert(collapse(t, idx, off).0 == seq![' '] + o);
            assert(t =~= t.take(r as int) + rest);
            assert(is_blank(t.take(r as int))) by {
                assert forall|j: int| 0 <= j < r implies is_ws_char(#[trigger] t.take(r as int)[j]) by {
                    assert(t[j] == ' ');
                }
            }
            lemma_blank_concat(t.take(r as int), rest);
            lemma_blank_concat(seq![' '], o);
            if rest.len() > 0 {
                assert(rest[0] != ' ');
                assert(rest.last() == t.last());
            } else {
                assert(t[t.len() - 1] == ' ');
            }
            let out = seq![' '] + o;
            assert forall|j: int| 0 <= j && j + 1 < out.len() implies !(#[trigger] out[j] == ' '
                && out[j + 1] == ' ') by {
                if j >= 1 {
                    assert(out[j] == o[j - 1] && out[j + 1] == o[j]);
                }
            }
        } else {
            let rest = t.skip(1);
            let w = crate::text::utf8_width(t[0]);
            let o = collapse(rest, idx, off + w).0;
            lemma_collapse_shape(rest, idx, off + w);
            assert(collapse(t, idx, off).0 == seq![t[0]] + o);
            assert(t =~= seq![t[0]] + rest);
            lemma_blank_concat(seq![t[0]], rest);
            lemma_blank_concat(seq![t[0]], o);
            if rest.len() > 0 {
                assert(rest.last() == t.last());
            }
            let out = seq![t[0]] + o;
            assert forall|j: int| 0 <= j && j + 1 < out.len() implies !(#[trigger] out[j] == ' '
                && out[j + 1] == ' ') by {
                if j >= 1 {
                    assert(out[j] == o[j - 1] && out[j + 1] == o[j]);
                }
            }
        }
    }
}

/// One segment through steps (2) and (3): it ends with neither space nor
/// tab, holds no two spaces together, and is blank exactly when the input
/// segment is.
proof fn lemma_ws_line_shape(seg: Seq<char>, idx: int)
    ensures
        no_trailing_blank(ws_line(seg, idx).0) || kept(seg) == seg,
        no_double_space(ws_line(seg, idx).0),
        is_blank(ws_line(seg, idx).0) <==> is_blank(seg),
{
    let c = content(seg);
    let tr = kept(seg);
    lemma_kept(seg);
    lemma_trim_ws_end(c);
    let o = collapse(tr, idx, 0).0;
    lemma_collapse_shape(tr, idx, 0);
    let out = o + term(seg);
    assert(ws_line(seg, idx).0 == out);
    if !has_cr(seg) && has_cr(trim_ws_end(c)) {
        assert(tr == seg);
    }
    // blankness
    assert(c =~= tr + c.skip(tr.len() as int));
    assert(is_blank(c.skip(tr.len() as int))) by {
        assert forall|j: int| 0 <= j < c.skip(tr.len() as int).len() implies is_ws_char(
            #[trigger] c.skip(tr.len() as int)[j],
        ) by {
            assert(c[tr.len() + j] == ' ' || c[tr.len() + j] == '\t');
        }
    }
    lemma_blank_concat(tr, c.skip(tr.len() as int));
    assert(seg =~= c + term(seg));
    lemma_blank_concat(c, term(seg));
    lemma_blank_concat(o, term(seg));
    // no two spaces
    assert forall|j: int| 0 <= j && j + 1 < out.len() implies !(#[trigger] out[j] == ' ' && out[j + 1]
        == ' ') by {
        if j + 1 < o.len() {
            assert(out[j] == o[j] && out[j + 1] == o[j + 1]);
        } else {
            assert(out[j + 1] == '\r');
        }
    }
}

proof fn lemma_ws_lines_shape(s: Seq<Seq<char>>, idx: int)
    ensures
        ws_lines(s, idx).0.len() == s.len(),
        forall|k: int|
            0 <= k < s.len() ==> (no_trailing_blank(#[trigger] ws_lines(s, idx).0[k]) || kept(s[k])
                == s[k]) && no_double_space(ws_lines(s, idx).0[k]) && (is_blank(ws_lines(s, idx).0[k])
                <==> is_blank(s[k])),
    decreases s.len(),
{
    if s.len() > 0 {
        lemma_ws_line_shape(s[0], idx);
        lemma_ws_lines_shape(s.skip(1), idx + 1);
        let out = ws_lines(s, idx).0;
        let rest = ws_lines(s.skip(1), idx + 1).0;
        assert forall|k: int| 0 <= k < s.len() implies (no_trailing_blank(#[trigger] out[k])
            || kept(s[k]) == s[k]) && no_double_space(out[k]) && (is_blank(out[k]) <==> is_blank(s[k])) by {
            if k > 0 {
                assert(out[k] == rest[k - 1]);
                assert(s.skip(1)[k - 1] == s[k]);
            }
        }
    }
}

/// Squeezing leaves no three blank segments in a row and keeps the first
/// segment.
proof fn lemma_squeeze_shape(s: Seq<Seq<char>>, base: int)
    ensures
        no_blank_triple(squeeze(s, base).0),
        s.len() > 0 ==> squeeze(s, base).0.len() > 0 && squeeze(s, base).0[0] == s[0],
    decreases s.len(),
{
    if s.len() > 0 {
        let out = squeeze(s, base).0;
        if is_blank(s[0]) {
            let r = blank_run(s);
            lemma_blank_run(s);
            let t = s.skip(r as int);
            let shift: int = if r >= 3 { 2 } else { r as int };
            let o = squeeze(t, base + shift).0;
            lemma_squeeze_shape(t, base + shift);
            if t.len() > 0 {
                assert(t[0] == s[r as int]);
                assert(!is_blank(o[0]));
            }
            if r >= 3 {
                assert(out == seq![s[0], s[1]] + o);
            } else {
                assert(out == s.take(r as int) + o);
            }
            assert(out.len() == shift + o.len());
            assert forall|k: int| 0 <= k && k + 2 < out.len() implies !(is_blank(#[trigger] out[k])
                && is_blank(out[k + 1]) && is_blank(out[k + 2])) by {
                if k >= shift {
                    assert(out[k] == o[k - shift] && out[k + 1] == o[k + 1 - shift] && out[k + 2]
                        == o[k + 2 - shift]);
                } else {
                    assert(out[shift] == o[0]);
                }
            }
        } else {
            let t = s.skip(1);
            let o = squeeze(t, base + 1).0;
            lemma_squeeze_shape(t, base + 1);
            assert(out == seq![s[0]] + o);
            assert forall|k: int| 0 <= k && k + 2 < out.len() implies !(is_blank(#[trigger] out[k])
                && is_blank(out[k + 1]) && is_blank(out[k + 2])) by {
                if k >= 1 {
                    assert(out[k] == o[k - 1] && out[k + 1] == o[k] && out[k + 2] == o[k + 1]);
                }
            }
        }
    }
}

/// What the stage leaves: no segment holds two spaces together, no three
/// blank segments stand in a row, and a segment ends with a space or a tab
/// only where step (2) kept that segment's whitespace (after a `\r` that is
/// not its last character).
pub proof fn lemma_ws_output_shape(s: Seq<Seq<char>>)
    ensures
        forall|k: int|
            0 <= k < ws_compress_spec(s).0.len() ==> (no_trailing_blank(
                #[trigger] ws_compress_spec(s).0[k],
            ) || kept(squeeze(s, 0).0[k]) == squeeze(s, 0).0[k]) && no_double_space(
                ws_compress_spec(s).0[k],
            ),
        no_blank_triple(ws_compress_spec(s).0),
{
    let sq = squeeze(s, 0).0;
    lemma_squeeze_shape(s, 0);
    lemma_ws_lines_shape(sq, 0);
    let out = ws_compress_spec(s).0;
    assert forall|k: int| 0 <= k && k + 2 < out.len() implies !(is_blank(#[trigger] out[k])
        && is_blank(out[k + 1]) && is_blank(out[k + 2])) by {
        assert(is_blank(out[k]) <==> is_blank(sq[k]));
        assert(is_blank(out[k + 1]) <==> is_blank(sq[k + 1]));
        assert(is_blank(out[k + 2]) <==> is_blank(sq[k + 2]));
    }
}

// ---------------------------------------------------------------------------
// An empty map means nothing changed
// ---------------------------------------------------------------------------

proof fn lemma_squeeze_same(s: Seq<Seq<char>>, base: int)
    ensures
        squeeze(s, base).0.len() <= s.len(),
        squeeze(s, base).1.len() > 0 ==> squeeze(s, base).0.len() < s.len(),
        squeeze(s, base).1.len() == 0 <==> squeeze(s, base).0 == s,
    decreases s.len(),
{
    if s.len() > 0 {
        let (out, bl) = squeeze(s, base);
        if is_blank(s[0]) {
            let r = blank_run(s);
            lemma_blank_run(s);
            let t = s.skip(r as int);
            if r >= 3 {
                lemma_squeeze_same(t, base + 2);
                assert(bl.len() > 0);
                assert(out.len() < s.len());
            } else {
                lemma_squeeze_same(t, base + r);
                let o = squeeze(t, base + r).0;
                assert(out == s.take(r as int) + o);
                assert(bl == squeeze(t, base + r).1);
                assert(s =~= s.take(r as int) + t);
                if out == s {
                    assert(o =~= out.skip(r as int));
                    assert(t =~= s.skip(r as int));
                }
                if bl.len() == 0 {
                    assert(out =~= s);
                }
            }
        } else {
            let t = s.skip(1);
            lemma_squeeze_same(t, base + 1);
            let o = squeeze(t, base + 1).0;
            assert(out == seq![s[0]] + o);
            assert(s =~= seq![s[0]] + t);
            if out == s {
                assert(o =~= out.skip(1));
            }
            if bl.len() == 0 {
                assert(out =~= s);
            }
        }
    } else {
        assert(squeeze(s, base).0 =~= s);
    }
}

proof fn lemma_collapse_same(t: Seq<char>, idx: int, off: int)
    ensures
        collapse(t, idx, off).0.len() <= t.len(),
        collapse(t, idx, off).1.len() == 0 <==> collapse(t, idx, off).0 == t,
    decreases t.len(),
{
    if t.len() > 0 {
        let (out, rs) = collapse(t, idx, off);
        if t[0] == ' ' {
            let r = space_run(t);
            lemma_space_run(t);
            let rest = t.skip(r as int);
            lemma_collapse_same(rest, idx, off + 1);
            let (o, rs1) = collapse(rest, idx, off + 1);
            assert(out == seq![' '] + o);
            if r >= 2 {
                assert(rs.len() > 0);
                assert(out.len() < t.len());
            } else {
                assert(rs == rs1);
                assert(t =~= seq![' '] + rest);
                if out == t {
                    assert(o =~= out.skip(1));
                }
                if rs.len() == 0 {
                    assert(out =~= t);
                }
            }
        } else {
            let rest = t.skip(1);
            let w = utf8_width(t[0]);
            lemma_collapse_same(rest, idx, off + w);
            let o = collapse(rest, idx, off + w).0;
            assert(out == seq![t[0]] + o);
            assert(t =~= seq![t[0]] + rest);
            if out == t {
                assert(o =~= out.skip(1));
            }
            if collapse(t, idx, off).1.len() == 0 {
                assert(out =~= t);
            }
        }
    } else {
        assert(collapse(t, idx, off).0 =~= t);
    }
}

proof fn lemma_ws_line_same(seg: Seq<char>, idx: int)
    ensures
        ws_line(seg, idx).0.len() <= seg.len(),
        (ws_line(seg, idx).1.len() == 0 && ws_line(seg, idx).2.len() == 0) <==> ws_line(seg, idx).0
            == seg,
{
    let c = content(seg);
    let tr = kept(seg);
    lemma_kept(seg);
    lemma_collapse_same(tr, idx, 0);
    let (o, rs) = collapse(tr, idx, 0);
    assert(seg =~= c + term(seg));
    if tr.len() == c.len() {
        assert(tr =~= c);
        if o + term(seg) == seg {
            assert(o =~= (o + term(seg)).take(o.len() as int));
            assert(c =~= seg.take(c.len() as int));
        }
    } else {
        assert((o + term(seg)).len() < seg.len());
    }
}

proof fn lemma_ws_lines_same(s: Seq<Seq<char>>, idx: int)
    ensures
        ws_lines(s, idx).0.len() == s.len(),
        (ws_lines(s, idx).1.len() == 0 && ws_lines(s, idx).2.len() == 0) <==> ws_lines(s, idx).0 == s,
    decreases s.len(),
{
    if s.len() > 0 {
        lemma_ws_line_same(s[0], idx);
        lemma_ws_lines_same(s.skip(1), idx + 1);
        let (o, t, r) = ws_line(s[0], idx);
        let (os, ts, rs) = ws_lines(s.skip(1), idx + 1);
        assert(ws_lines(s, idx).0 == seq![o] + os);
        assert(s =~= seq![s[0]] + s.skip(1));
        if seq![o] + os == s {
            assert((seq![o] + os)[0] == o);
            assert(os =~= (seq![o] + os).skip(1));
        }
    } else {
        assert(ws_lines(s, idx).0 =~= s);
    }
}

/// The map records nothing exactly when the stage changed nothing.
pub proof fn lemma_ws_empty_map(s: Seq<Seq<char>>)
    ensures
        (ws_compress_spec(s).1.blanks.len() == 0 && ws_compress_spec(s).1.trailing.len() == 0
            && ws_compress_spec(s).1.runs.len() == 0) <==> ws_compress_spec(s).0 == s,
{
    let (sq, bl) = squeeze(s, 0);
    lemma_squeeze_same(s, 0);
    lemma_ws_lines_same(sq, 0);
    if bl.len() > 0 {
        assert(sq.len() < s.len());
    }
}

/// One segment through steps (2) and (3): its content (less a final `\r`)
/// ends with neither space nor tab, unless the segment has no final `\r` and
/// stripping its trailing spaces and tabs would leave a `\r` at its end.
proof fn lemma_ws_line_strips(seg: Seq<char>, idx: int)
    requires
        has_cr(seg) || !has_cr(trim_ws_end(seg)),
    ensures
        no_trailing_blank(content(ws_line(seg, idx).0)),
{
    let c = content(seg);
    lemma_trim_ws_end(c);
    let tr = trim_ws_end(c);
    assert(kept(seg) == tr);
    lemma_collapse_shape(tr, idx, 0);
    let o = collapse(tr, idx, 0).0;
    let out = o + term(seg);
    assert(ws_line(seg, idx).0 == out);
    if has_cr(seg) {
        assert(out.drop_last() =~= o);
        assert(content(out) == o);
    } else {
        assert(c == seg);
        assert(out =~= o);
        if o.len() > 0 {
            assert(o.last() == tr.last());
        }
        assert(content(out) == o);
    }
}

/// The stage strips trailing whitespace: no output segment's content (the
/// segment less a final `\r`) ends with a space or a tab, except a segment
/// that has no final `\r` and would be left ending with a `\r` by stripping
/// its trailing spaces and tabs.
pub proof fn lemma_ws_strips_trailing(s: Seq<Seq<char>>)
    ensures
        ws_compress_spec(s).0.len() == squeeze(s, 0).0.len(),
        forall|k: int|
            0 <= k < ws_compress_spec(s).0.len() && (has_cr(squeeze(s, 0).0[k]) || !has_cr(
                trim_ws_end(squeeze(s, 0).0[k]),
            )) ==> no_trailing_blank(content(#[trigger] ws_compress_spec(s).0[k])),
{
    let sq = squeeze(s, 0).0;
    lemma_ws_lines_index(sq, 0);
    assert forall|k: int|
        0 <= k < ws_compress_spec(s).0.len() && (has_cr(sq[k]) || !has_cr(trim_ws_end(sq[k])))
        implies no_trailing_blank(content(#[trigger] ws_compress_spec(s).0[k])) by {
        lemma_ws_line_strips(sq[k], k);
    }
}

/// Segment `k` of [`ws_lines`] is [`ws_line`] of input segment `k`.
proof fn lemma_ws_lines_index(s: Seq<Seq<char>>, idx: int)
    ensures
        ws_lines(s, idx).0.len() == s.len(),
        forall|k: int| 0 <= k < s.len() ==> #[trigger] ws_lines(s, idx).0[k] == ws_line(s[k], idx + k).0,
    decreases s.len(),
{
    if s.len() > 0 {
        lemma_ws_lines_index(s.skip(1), idx + 1);
        let out = ws_lines(s, idx).0;
        let rest = ws_lines(s.skip(1), idx + 1).0;
        assert forall|k: int| 0 <= k < s.len() implies #[trigger] out[k] == ws_line(s[k], idx + k).0 by {
            if k > 0 {
                assert(out[k] == rest[k - 1]);
                assert(s.skip(1)[k - 1] == s[k]);
            }
        }
    }
}

} // verus!
