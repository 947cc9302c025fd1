//! Repeat-dedup stage (reversible, self-describing).
//!
//! Runs of N >= 3 consecutive identical segments become one copy
//! preceded by a `⟦REP N×⟧` marker segment. Expansion restores the copies.

use vstd::prelude::*;
use crate::error::TcError;
use crate::text::{
    chars_eq, chars_of, chars_to_strings, clone_chars, decimal, decimal_exec, extend_chars,
    lemma_parse_decimal, parse_usize, parse_usize_exec, string_of, strings_to_chars,
    text_with_number, view_lines,
};

verus! {

/// `⟦REP `, the start of a repeat marker.
pub open spec fn rep_prefix() -> Seq<char> {
    seq!['\u{27E6}', 'R', 'E', 'P', ' ']
}

/// `×⟧`, the end of a repeat marker.
pub open spec fn rep_suffix() -> Seq<char> {
    seq!['\u{00D7}', '\u{27E7}']
}

/// The marker segment `⟦REP n×⟧`.
pub open spec fn rep_marker(n: nat) -> Seq<char> {
    rep_prefix() + decimal(n) + rep_suffix()
}

/// The count of a repeat marker segment: the segment must be exactly
/// `⟦REP ` + ASCII digits + `×⟧`, with at least one digit and a value that fits
/// in `usize`.
pub open spec fn parse_rep(seg: Seq<char>) -> Option<usize> {
    if seg.len() >= 7 && seg.take(5) == rep_prefix() && seg.skip(seg.len() - 2) == rep_suffix() {
        parse_usize(seg.subrange(5, seg.len() - 2))
    } else {
        None
    }
}

/// The number of leading segments equal to the first one.
pub open spec fn run_len(s: Seq<Seq<char>>) -> nat
    decreases s.len(),
{
    if s.len() == 0 {
        0
    } else if s.len() >= 2 && s[1] == s[0] {
        1 + run_len(s.skip(1))
    } else {
        1
    }
}

/// The segments after deduplication.
pub open spec fn dedup_spec(s: Seq<Seq<char>>) -> Seq<Seq<char>>
    decreases s.len(),
{
    if s.len() == 0 {
        Seq::<Seq<char>>::empty()
    } else {
        let r = run_len(s);
        proof {
            lemma_run_len(s);
        }
        (if r >= 3 {
            seq![rep_marker(r), s[0]]
        } else {
            s.take(r as int)
        }) + dedup_spec(s.skip(r as int))
    }
}

/// Error message for a repeat count below three.
pub open spec fn rep_count_msg(n: nat) -> Seq<char> {
    "corrupt map: REP count "@ + decimal(n) + " < 3"@
}

/// Error message for a repeat marker on the last segment.
pub open spec fn rep_orphan_msg() -> Seq<char> {
    "corrupt map: REP marker without a following line"@
}

/// The segments with every repeat marker replaced by its copies; the first
/// marker that counts fewer than three copies, or that has no following
/// segment, is an error.
pub open spec fn dedup_expand_spec(s: Seq<Seq<char>>) -> Result<Seq<Seq<char>>, Seq<char>>
    decreases s.len(),
{
    if s.len() == 0 {
        Ok(Seq::<Seq<char>>::empty())
    } else {
        match parse_rep(s[0]) {
            Some(n) => if n < 3 {
                Err(rep_count_msg(n as nat))
            } else if s.len() < 2 {
                Err(rep_orphan_msg())
            } else {
                match dedup_expand_spec(s.skip(2)) {
                    Ok(r) => Ok(Seq::new(n as nat, |_i: int| s[1]) + r),
                    Err(e) => Err(e),
                }
            },
            None => match dedup_expand_spec(s.skip(1)) {
                Ok(r) => Ok(seq![s[0]] + r),
                Err(e) => Err(e),
            },
        }
    }
}

/// A run is at least one segment long, at most the whole list, and maximal.
pub proof fn lemma_run_len(s: Seq<Seq<char>>)
    ensures
        s.len() > 0 ==> 1 <= run_len(s) <= s.len(),
        forall|k: int| 0 <= k < run_len(s) ==> #[trigger] s[k] == s[0],
        run_len(s) < s.len() ==> s[run_len(s) as int] != s[0],
    decreases s.len(),
{
    if s.len() >= 2 && s[1] == s[0] {
        lemma_run_len(s.skip(1));
        assert forall|k: int| 0 <= k < run_len(s) implies #[trigger] s[k] == s[0] by {
            if k > 0 {
                assert(s[k] == s.skip(1)[k - 1]);
            }
        }
        if run_len(s) < s.len() {
            assert(s[run_len(s) as int] == s.skip(1)[run_len(s.skip(1)) as int]);
        }
    }
}

proof fn lemma_run_len_is(s: Seq<Seq<char>>, m: int)
    requires
        1 <= m <= s.len(),
        forall|k: int| 0 <= k < m ==> #[trigger] s[k] == s[0],
        m == s.len() || s[m] != s[0],
    ensures
        run_len(s) == m,
    decreases m,
{
    if m > 1 {
        assert(s[1] == s[0]);
        let t = s.skip(1);
        assert forall|k: int| 0 <= k < m - 1 implies #[trigger] t[k] == t[0] by {
            assert(t[k] == s[k + 1]);
            assert(s[k + 1] == s[0]);
        }
        if m - 1 < t.len() {
            assert(t[m - 1] == s[m]);
        }
        lemma_run_len_is(t, m - 1);
    }
}

/// The repeat count of `seg`, if it is a repeat marker.
pub fn parse_marker(seg: &str) -> (r: Option<usize>)
    ensures
        r == parse_rep(seg@),
{
    let v = chars_of(seg);
    parse_marker_chars(v.as_slice())
}

fn parse_marker_chars(v: &[char]) -> (r: Option<usize>)
    ensures
        r == parse_rep(v@),
{
    let n = v.len();
    if n < 7 {
        return None;
    }
    let prefix_ok = v[0] == '\u{27E6}' && v[1] == 'R' && v[2] == 'E' && v[3] == 'P' && v[4] == ' ';
    let suffix_ok = v[n - 2] == '\u{00D7}' && v[n - 1] == '\u{27E7}';
    assert(prefix_ok == (v@.take(5) == rep_prefix())) by {
        if v@.take(5) == rep_prefix() {
            assert(v@.take(5)[0] == v@[0] && v@.take(5)[4] == v@[4]);
            assert(v@.take(5)[1] == v@[1] && v@.take(5)[2] == v@[2] && v@.take(5)[3] == v@[3]);
        }
        if prefix_ok {
            assert(v@.take(5) =~= rep_prefix());
        }
    }
    assert(suffix_ok == (v@.skip(n - 2) == rep_suffix())) by {
        if v@.skip(n - 2) == rep_suffix() {
            assert(v@.skip(n - 2)[0] == v@[n - 2] && v@.skip(n - 2)[1] == v@[n - 1]);
        }
        if suffix_ok {
            assert(v@.skip(n - 2) =~= rep_suffix());
        }
    }
    if !prefix_ok || !suffix_ok {
        return None;
    }
    let mut digits: Vec<char> = Vec::new();
    let mut i: usize = 5;
    while i < n - 2
        invariant
            n == v@.len(),
            n >= 7,
            5 <= i <= n - 2,
            digits@ == v@.subrange(5, i as int),
        decreases n - 2 - i,
    {
        digits.push(v[i]);
        i += 1;
        assert(digits@ =~= v@.subrange(5, i as int));
    }
    parse_usize_exec(digits.as_slice())
}

/// The marker chars `⟦REP n×⟧`.
fn marker_chars(n: usize) -> (r: Vec<char>)
    ensures
        r@ == rep_marker(n as nat),
{
    let mut r: Vec<char> = vec!['\u{27E6}', 'R', 'E', 'P', ' '];
    let d = decimal_exec(n);
    extend_chars(&mut r, d.as_slice());
    r.push('\u{00D7}');
    r.push('\u{27E7}');
    assert(r@ =~= rep_marker(n as nat));
    r
}

/// Deduplicates runs of identical segments.
pub fn compress(segs: Vec<String>) -> (r: Vec<String>)
    ensures
        r.deep_view() == dedup_spec(segs.deep_view()),
{
    let v = strings_to_chars(&segs);
    let out = compress_lines(&v);
    chars_to_strings(&out)
}

/// [`compress`] on character vectors.
pub fn compress_lines(segs: &Vec<Vec<char>>) -> (out: Vec<Vec<char>>)
    ensures
        view_lines(out@) == dedup_spec(view_lines(segs@)),
{
    let ghost s = view_lines(segs@);
    let mut out: Vec<Vec<char>> = Vec::new();
    let mut i: usize = 0;
    assert(s.skip(0) =~= s);
    assert(view_lines(out@) + dedup_spec(s.skip(0)) =~= dedup_spec(s));
    while i < segs.len()
        invariant
            s == view_lines(segs@),
            i <= segs@.len(),
            view_lines(out@) + dedup_spec(s.skip(i as int)) == dedup_spec(s),
        decreases segs@.len() - i,
    {
        let ghost rest = s.skip(i as int);
        let mut j: usize = i + 1;
        while j < segs.len() && chars_eq(segs[j].as_slice(), segs[i].as_slice())
            invariant
                s == view_lines(segs@),
                i < j <= segs@.len(),
                forall|k: int| i <= k < j ==> #[trigger] s[k] == s[i as int],
            decreases segs@.len() - j,
        {
            j += 1;
        }
        let run = j - i;
        proof {
            assert forall|k: int| 0 <= k < run implies #[trigger] rest[k] == rest[0] by {
                assert(rest[k] == s[i + k]);
            }
            if run < rest.len() {
                assert(rest[run as int] == s[j as int]);
            }
            lemma_run_len_is(rest, run as int);
        }
        let ghost before = view_lines(out@);
        if run >= 3 {
            out.push(marker_chars(run));
            out.push(clone_chars(segs[i].as_slice()));
            assert(view_lines(out@) =~= before + seq![rep_marker(run as nat), rest[0]]);
        } else {
            let mut k: usize = i;
            while k < j
                invariant
                    s == view_lines(segs@),
                    i <= k <= j <= segs@.len(),
                    view_lines(out@) == before + s.subrange(i as int, k as int),
                decreases j - k,
            {
                let ghost prev = view_lines(out@);
                let c = clone_chars(segs[k].as_slice());
                out.push(c);
                assert(view_lines(out@) =~= prev.push(s[k as int]));
                k += 1;
                assert(view_lines(out@) =~= before + s.subrange(i as int, k as int));
            }
            assert(s.subrange(i as int, j as int) =~= rest.take(run as int));
        }
        assert(rest.skip(run as int) =~= s.skip(j as int));
        i = j;
        assert((view_lines(out@) + dedup_spec(s.skip(i as int))) =~= dedup_spec(s));
    }
    assert(s.skip(i as int) =~= Seq::<Seq<char>>::empty());
    assert(view_lines(out@) + Seq::<Seq<char>>::empty() =~= view_lines(out@));
    out
}

/// Restores the runs that [`compress`] replaced by markers.
pub fn expand(segs: Vec<String>) -> (r: Result<Vec<String>, TcError>)
    ensures
        match dedup_expand_spec(segs.deep_view()) {
            Ok(v) => r is Ok && r->Ok_0.deep_view() == v,
            Err(m) => r is Err && r->Err_0.msg@ == m,
        },
{
    let v = strings_to_chars(&segs);
    match expand_lines(&v) {
        Ok(out) => Ok(chars_to_strings(&out)),
        Err(e) => Err(e),
    }
}

/// [`expand`] on character vectors.
pub fn expand_lines(segs: &Vec<Vec<char>>) -> (r: Result<Vec<Vec<char>>, TcError>)
    ensures
        match dedup_expand_spec(view_lines(segs@)) {
            Ok(v) => r is Ok && view_lines(r->Ok_0@) == v,
            Err(m) => r is Err && r->Err_0.msg@ == m,
        },
{
    let ghost s = view_lines(segs@);
    let mut out: Vec<Vec<char>> = Vec::new();
    let mut i: usize = 0;
    assert(s.skip(0) =~= s);
    while i < segs.len()
        invariant
            s == view_lines(segs@),
            i <= segs@.len(),
            match dedup_expand_spec(s.skip(i as int)) {
                Ok(rv) => dedup_expand_spec(s) == Ok::<Seq<Seq<char>>, Seq<char>>(view_lines(out@) + rv),
                Err(m) => dedup_expand_spec(s) == Err::<Seq<Seq<char>>, Seq<char>>(m),
            },
        decreases segs@.len() - i,
    {
        let ghost rest = s.skip(i as int);
        assert(rest[0] == s[i as int]);
        match parse_marker_chars(segs[i].as_slice()) {
            Some(n) => {
                if n < 3 {
                    return Err(TcError::new(text_with_number("corrupt map: REP count ", n, " < 3")));
                }
                if i + 1 >= segs.len() {
                    return Err(TcError::new(text_of_orphan()));
                }
                let ghost before = view_lines(out@);
                let next: usize = i + 1;
                let mut k: usize = 0;
                while k < n
                    invariant
                        s == view_lines(segs@),
                        next == i + 1,
                        next < segs@.len(),
                        k <= n,
                        view_lines(out@) == before + Seq::new(k as nat, |_m: int| s[i + 1]),
                    decreases n - k,
                {
                    let ghost prev = view_lines(out@);
                    let c = clone_chars(segs[next].as_slice());
                    out.push(c);
                    assert(view_lines(out@) =~= prev.push(s[i + 1]));
                    k += 1;
                    assert(view_lines(out@) =~= before + Seq::new(k as nat, |_m: int| s[i + 1]));
                }
                assert(rest[1] == s[i + 1]);
                assert(rest.skip(2) =~= s.skip(i + 2));
                assert(Seq::new(n as nat, |_m: int| s[i + 1]) =~= Seq::new(n as nat, |_m: int| rest[1]));
                i += 2;
                proof {
                    match dedup_expand_spec(s.skip(i as int)) {
                        Ok(rv) => {
                            assert(before + Seq::new(n as nat, |_m: int| rest[1]) + rv
                                =~= before + (Seq::new(n as nat, |_m: int| rest[1]) + rv));
                        },
                        Err(m) => {},
                    }
                }
            },
            None => {
                let ghost before = view_lines(out@);
                out.push(clone_chars(segs[i].as_slice()));
                assert(rest.skip(1) =~= s.skip(i + 1));
                i += 1;
                proof {
                    match dedup_expand_spec(s.skip(i as int)) {
                        Ok(rv) => {
                            assert(view_lines(out@) =~= before.push(rest[0]));
                            assert(before.push(rest[0]) + rv =~= before + (seq![rest[0]] + rv));
                        },
                        Err(m) => {},
                    }
                }
            },
        }
    }
    assert(s.skip(i as int) =~= Seq::<Seq<char>>::empty());
    assert(view_lines(out@) + Seq::<Seq<char>>::empty() =~= view_lines(out@));
    Ok(out)
}

fn text_of_orphan() -> (r: String)
    ensures
        r@ == rep_orphan_msg(),
{
    let v = chars_of("corrupt map: REP marker without a following line");
    string_of(v.as_slice())
}

/// A repeat marker segment reads back as its count.
pub proof fn lemma_parse_rep_marker(n: usize)
    ensures
        parse_rep(rep_marker(n as nat)) == Some(n),
{
    let m = rep_marker(n as nat);
    lemma_parse_decimal(n);
    crate::text::lemma_decimal(n as nat);
    assert(m.take(5) =~= rep_prefix());
    assert(m.skip(m.len() - 2) =~= rep_suffix());
    assert(m.subrange(5, m.len() - 2) =~= decimal(n as nat));
}

/// Non-marker segments pass through expansion unchanged.
proof fn lemma_expand_plain_prefix(p: Seq<Seq<char>>, x: Seq<Seq<char>>)
    requires
        forall|k: int| 0 <= k < p.len() ==> parse_rep(#[trigger] p[k]) is None,
    ensures
        dedup_expand_spec(p + x) == match dedup_expand_spec(x) {
            Ok(r) => Ok::<Seq<Seq<char>>, Seq<char>>(p + r),
            Err(e) => Err(e),
        },
    decreases p.len(),
{
    if p.len() == 0 {
        assert(p + x =~= x);
        match dedup_expand_spec(x) {
            Ok(r) => { assert(p + r =~= r); },
            Err(e) => {},
        }
    } else {
        let q = p.skip(1);
        assert forall|k: int| 0 <= k < q.len() implies parse_rep(#[trigger] q[k]) is None by {
            assert(q[k] == p[k + 1]);
        }
        lemma_expand_plain_prefix(q, x);
        assert((p + x)[0] == p[0]);
        assert((p + x).skip(1) =~= q + x);
        match dedup_expand_spec(x) {
            Ok(r) => { assert(seq![p[0]] + (q + r) =~= p + r); },
            Err(e) => {},
        }
    }
}

/// Expanding what deduplication produced gives the segments back, when no
/// segment is itself a repeat marker (escaped text never holds one).
pub proof fn lemma_dedup_roundtrip(s: Seq<Seq<char>>)
    requires
        s.len() <= usize::MAX,
        forall|k: int| 0 <= k < s.len() ==> parse_rep(#[trigger] s[k]) is None,
    ensures
        dedup_expand_spec(dedup_spec(s)) == Ok::<Seq<Seq<char>>, Seq<char>>(s),
    decreases s.len(),
{
    if s.len() == 0 {
        assert(s =~= Seq::<Seq<char>>::empty());
        assert(dedup_spec(s) =~= Seq::<Seq<char>>::empty());
    } else {
        lemma_run_len(s);
        let r = run_len(s);
        let rest = s.skip(r as int);
        assert forall|k: int| 0 <= k < rest.len() implies parse_rep(#[trigger] rest[k]) is None by {
            assert(rest[k] == s[k + r]);
        }
        lemma_dedup_roundtrip(rest);
        let d = dedup_spec(s);
        if r >= 3 {
            let blk = seq![rep_marker(r), s[0]];
            assert(d == blk + dedup_spec(rest));
            lemma_parse_rep_marker(r as usize);
            assert((r as usize) as nat == r);
            assert(parse_rep(rep_marker(r)) == Some(r as usize));
            assert(d.len() >= 2);
            assert(d[0] == rep_marker(r));
            assert(d[1] == s[0]);
            assert(d.skip(2) =~= dedup_spec(rest));
            assert(Seq::new(r, |_i: int| d[1]) + rest =~= s);
            assert(dedup_expand_spec(d.skip(2)) == Ok::<Seq<Seq<char>>, Seq<char>>(rest));
            assert(parse_rep(d[0]) == Some(r as usize));
            assert(!((r as usize) < 3));
            assert(dedup_expand_spec(d) == Ok::<Seq<Seq<char>>, Seq<char>>(Seq::new((r as usize) as nat, |_i: int| d[1]) + rest));
            assert(Seq::new((r as usize) as nat, |_i: int| d[1]) + rest == s);
        } else {
            let p = s.take(r as int);
            assert forall|k: int| 0 <= k < p.len() implies parse_rep(#[trigger] p[k]) is None by {
                assert(p[k] == s[k]);
            }
            lemma_expand_plain_prefix(p, dedup_spec(rest));
            assert(p + rest =~= s);
            assert(d == p + dedup_spec(rest));
            assert(dedup_expand_spec(d) == Ok::<Seq<Seq<char>>, Seq<char>>(s));
        }
    }
}

/// No segment repeats three times in a row.
pub open spec fn no_repeat_triple(s: Seq<Seq<char>>) -> bool {
    forall|k: int|
        0 <= k && k + 2 < s.len() ==> !(#[trigger] s[k] == s[k + 1] && s[k + 1] == s[k + 2])
}

/// The first output segment is the first input segment or a repeat marker.
proof fn lemma_dedup_first(s: Seq<Seq<char>>)
    requires
        s.len() > 0,
        s.len() <= usize::MAX,
    ensures
        dedup_spec(s).len() > 0,
        dedup_spec(s)[0] == s[0] || parse_rep(dedup_spec(s)[0]) is Some,
{
    let r = run_len(s);
    lemma_run_len(s);
    if r >= 3 {
        lemma_parse_rep_marker(r as usize);
        assert(dedup_spec(s)[0] == rep_marker(r));
    } else {
        assert(dedup_spec(s)[0] == s.take(r as int)[0]);
    }
}

/// Deduplication leaves no segment three times in a row, when no
/// input segment is itself a repeat marker.
pub proof fn lemma_dedup_no_triple(s: Seq<Seq<char>>)
    requires
        s.len() <= usize::MAX,
        forall|k: int| 0 <= k < s.len() ==> parse_rep(#[trigger] s[k]) is None,
    ensures
        no_repeat_triple(dedup_spec(s)),
    decreases s.len(),
{
    if s.len() > 0 {
        let r = run_len(s);
        lemma_run_len(s);
        let t = s.skip(r as int);
        assert forall|k: int| 0 <= k < t.len() implies parse_rep(#[trigger] t[k]) is None by {
            assert(t[k] == s[k + r]);
        }
        lemma_dedup_no_triple(t);
        let o = dedup_spec(t);
        let out = dedup_spec(s);
        if t.len() > 0 {
            lemma_dedup_first(t);
            assert(t[0] == s[r as int]);
            assert(o[0] != s[0]);
        }
        let p: Seq<Seq<char>> = if r >= 3 {
            seq![rep_marker(r), s[0]]
        } else {
            s.take(r as int)
        };
        assert(out == p + o);
        if r >= 3 {
            lemma_parse_rep_marker(r as usize);
            assert(rep_marker(r) != s[0]);
        }
        assert forall|k: int| 0 <= k && k + 2 < out.len() implies !(#[trigger] out[k] == out[k + 1]
            && out[k + 1] == out[k + 2]) by {
            if k >= p.len() {
                assert(out[k] == o[k - p.len()] && out[k + 1] == o[k + 1 - p.len()] && out[k + 2]
                    == o[k + 2 - p.len()]);
            } else if r >= 3 {
                assert(out[0] == rep_marker(r) && out[1] == s[0]);
                if k == 1 {
                    assert(out[2] == o[0]);
                }
            } else {
                assert(out[k] == s[0]);
                assert(p.len() <= 2);
                if k + 1 < p.len() {
                    assert(out[k + 1] == s[0]);
                    assert(out[k + 2] == o[0]);
                } else {
                    assert(out[k + 1] == o[0]);
                }
            }
        }
    }
}

} // verus!
