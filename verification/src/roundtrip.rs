//! The round trip: expanding what compression produced gives the input back.
//!
//! Each stage's inverse needs its input free of the stage's own marker
//! opening (`⟦R`, `⟦U`, `⟦F`); escaping guarantees that for the input lines,
//! and the lemmas here carry it through the stages that run before.

use vstd::prelude::*;
use crate::compress::{
    compress_spec, dedup_name, dedup_stage, filler_name, filler_stage, fits_in_memory,
    name_if, urls_name, urls_stage, ws_name, ws_stage, Options,
};
use crate::dedup::{dedup_spec, lemma_dedup_roundtrip, lemma_run_len, parse_rep, rep_marker, rep_prefix, run_len};
use crate::escape::{
    escape_spec, lemma_escape_shape, lemma_escaped_no_pair, lemma_unescape_escape,
    no_marker_pair, open_bracket,
};
use crate::expand::{expand_spec, expand_stages, stage_inverse};
use crate::filler::{
    add_used, best_upto, filler_line, filler_marker, filler_segs, lemma_best_upto,
    lemma_filler_roundtrip, lemma_phrase_nonempty, phrase, PHRASE_COUNT,
};
use crate::map::{
    body_spec, framed, lemma_inline_roundtrip, locate_spec, open_prefix, sep_for, TcModel,
};
use crate::urls::{
    lemma_url_end, lemma_urls_roundtrip, scheme_len, url_boundary, url_end, url_id, url_marker,
    url_stop, urls_line, urls_segs,
};
use crate::text::{
    join_lines, lemma_decimal, lemma_utf8_len_at_least, occurs_at, lemma_join_split, lemma_split_join, lemma_split_lines_shape,
    newline, no_newlines, split_lines,
};
use crate::ws::{
    blank_run, collapse, content, is_blank, lemma_blank_run, lemma_space_run,
    space_run, squeeze, term, ws_compress_spec, ws_line, ws_lines, lemma_ws_roundtrip, kept,
};

verus! {

/// The segment holds no line feed.
pub open spec fn no_newline(seg: Seq<char>) -> bool {
    forall|j: int| 0 <= j < seg.len() ==> #[trigger] seg[j] != newline()
}

/// The segment holds no line feed and no `⟦` followed by `c`.
pub open spec fn seg_ok(seg: Seq<char>, c: char) -> bool {
    no_marker_pair(seg, c) && no_newline(seg)
}

/// Every segment is [`seg_ok`].
pub open spec fn all_ok(segs: Seq<Seq<char>>, c: char) -> bool {
    forall|k: int| 0 <= k < segs.len() ==> seg_ok(#[trigger] segs[k], c)
}

proof fn lemma_ok_concat(a: Seq<char>, b: Seq<char>, c: char)
    requires
        seg_ok(a, c),
        seg_ok(b, c),
        a.len() > 0 && b.len() > 0 ==> !(a.last() == open_bracket() && b[0] == c),
    ensures
        seg_ok(a + b, c),
{
    let x = a + b;
    assert forall|p: int| 0 <= p && p + 1 < x.len() implies !(#[trigger] x[p] == open_bracket()
        && x[p + 1] == c) by {
        if p + 1 < a.len() {
            assert(x[p] == a[p] && x[p + 1] == a[p + 1]);
        } else if p + 1 == a.len() {
            assert(x[p] == a.last() && x[p + 1] == b[0]);
        } else {
            assert(x[p] == b[p - a.len()] && x[p + 1] == b[p + 1 - a.len()]);
        }
    }
    assert forall|j: int| 0 <= j < x.len() implies #[trigger] x[j] != newline() by {
        if j < a.len() {
            assert(x[j] == a[j]);
        } else {
            assert(x[j] == b[j - a.len()]);
        }
    }
}

proof fn lemma_ok_subrange(s: Seq<char>, i: int, j: int, c: char)
    requires
        seg_ok(s, c),
        0 <= i <= j <= s.len(),
    ensures
        seg_ok(s.subrange(i, j), c),
{
    let t = s.subrange(i, j);
    assert forall|p: int| 0 <= p && p + 1 < t.len() implies !(#[trigger] t[p] == open_bracket()
        && t[p + 1] == c) by {
        assert(t[p] == s[i + p] && t[p + 1] == s[i + p + 1]);
    }
    assert forall|q: int| 0 <= q < t.len() implies #[trigger] t[q] != newline() by {
        assert(t[q] == s[i + q]);
    }
}

/// Splitting text free of `⟦c` gives segments free of it; the last segment,
/// when not empty, ends with the text's last character.
proof fn lemma_split_ok(s: Seq<char>, c: char)
    requires
        no_marker_pair(s, c),
        c != newline(),
    ensures
        all_ok(split_lines(s), c),
        split_lines(s).last().len() > 0 ==> s.len() > 0 && split_lines(s).last().last() == s.last(),
    decreases s.len(),
{
    lemma_split_lines_shape(s);
    if s.len() > 0 {
        let d = s.drop_last();
        assert forall|p: int| 0 <= p && p + 1 < d.len() implies !(#[trigger] d[p] == open_bracket()
            && d[p + 1] == c) by {
            assert(d[p] == s[p] && d[p + 1] == s[p + 1]);
        }
        lemma_split_ok(d, c);
        lemma_split_lines_shape(d);
        let prev = split_lines(d);
        if s.last() != newline() {
            let x = s.last();
            let l = prev.last();
            assert(seg_ok(l, c));
            assert(seg_ok(seq![x], c));
            if l.len() > 0 {
                assert(l.last() == s[s.len() - 2]);
            }
            lemma_ok_concat(l, seq![x], c);
            assert(l.push(x) =~= l + seq![x]);
            let cur = split_lines(s);
            assert forall|k: int| 0 <= k < cur.len() implies seg_ok(#[trigger] cur[k], c) by {
                if k < cur.len() - 1 {
                    assert(cur[k] == prev[k]);
                }
            }
        } else {
            let cur = split_lines(s);
            assert forall|k: int| 0 <= k < cur.len() implies seg_ok(#[trigger] cur[k], c) by {
                if k < cur.len() - 1 {
                    assert(cur[k] == prev[k]);
                }
            }
        }
    }
}

/// Collapsing space runs keeps a segment free of `⟦c` for `c` other than a
/// space; the output starts with the input's first character.
proof fn lemma_collapse_ok(t: Seq<char>, idx: int, off: int, c: char)
    requires
        seg_ok(t, c),
        c != ' ',
    ensures
        seg_ok(collapse(t, idx, off).0, c),
        t.len() > 0 ==> collapse(t, idx, off).0.len() > 0 && collapse(t, idx, off).0[0] == t[0],
    decreases t.len(),
{
    if t.len() > 0 {
        if t[0] == ' ' {
            let r = space_run(t);
            lemma_space_run(t);
            lemma_ok_subrange(t, r as int, t.len() as int, c);
            assert(t.skip(r as int) =~= t.subrange(r as int, t.len() as int));
            let o = collapse(t.skip(r as int), idx, off + 1).0;
            lemma_collapse_ok(t.skip(r as int), idx, off + 1, c);
            lemma_ok_concat(seq![' '], o, c);
        } else {
            let rest = t.skip(1);
            lemma_ok_subrange(t, 1, t.len() as int, c);
            assert(rest =~= t.subrange(1, t.len() as int));
            let o = collapse(rest, idx, off + crate::text::utf8_width(t[0])).0;
            lemma_collapse_ok(rest, idx, off + crate::text::utf8_width(t[0]), c);
            if o.len() > 0 {
                assert(o[0] == t[1]);
            }
            lemma_ok_concat(seq![t[0]], o, c);
        }
    }
}

/// One segment through the whitespace stage stays free of `⟦c`.
proof fn lemma_ws_line_ok(seg: Seq<char>, idx: int, c: char)
    requires
        seg_ok(seg, c),
        c != ' ',
        c != '\r',
    ensures
        seg_ok(ws_line(seg, idx).0, c),
{
    let ct = content(seg);
    lemma_ok_subrange(seg, 0, ct.len() as int, c);
    assert(ct =~= seg.subrange(0, ct.len() as int));
    let tr = kept(seg);
    crate::ws::lemma_kept(seg);
    lemma_ok_subrange(ct, 0, tr.len() as int, c);
    assert(tr =~= ct.subrange(0, tr.len() as int));
    lemma_collapse_ok(tr, idx, 0, c);
    let o = collapse(tr, idx, 0).0;
    assert(seg_ok(term(seg), c));
    lemma_ok_concat(o, term(seg), c);
}

proof fn lemma_ws_lines_ok(s: Seq<Seq<char>>, idx: int, c: char)
    requires
        all_ok(s, c),
        c != ' ',
        c != '\r',
    ensures
        all_ok(ws_lines(s, idx).0, c),
        ws_lines(s, idx).0.len() == s.len(),
    decreases s.len(),
{
    if s.len() > 0 {
        lemma_ws_line_ok(s[0], idx, c);
        lemma_ws_lines_ok(s.skip(1), idx + 1, c);
        let out = ws_lines(s, idx).0;
        let rest = ws_lines(s.skip(1), idx + 1).0;
        assert forall|k: int| 0 <= k < out.len() implies seg_ok(#[trigger] out[k], c) by {
            if k > 0 {
                assert(out[k] == rest[k - 1]);
                assert(s.skip(1)[k - 1] == s[k]);
            }
        }
    }
}

/// Squeezing keeps only segments of the input, keeps at least one of a
/// nonempty input, and never adds segments.
proof fn lemma_squeeze_ok(s: Seq<Seq<char>>, base: int, c: char)
    requires
        all_ok(s, c),
    ensures
        all_ok(squeeze(s, base).0, c),
        squeeze(s, base).0.len() <= s.len(),
        s.len() > 0 ==> squeeze(s, base).0.len() > 0,
    decreases s.len(),
{
    if s.len() > 0 {
        if is_blank(s[0]) {
            let r = blank_run(s);
            lemma_blank_run(s);
            let t = s.skip(r as int);
            assert forall|k: int| 0 <= k < t.len() implies seg_ok(#[trigger] t[k], c) by {
                assert(t[k] == s[k + r]);
            }
            if r >= 3 {
                lemma_squeeze_ok(t, base + 2, c);
                let out = squeeze(s, base).0;
                let o = squeeze(t, base + 2).0;
                assert forall|k: int| 0 <= k < out.len() implies seg_ok(#[trigger] out[k], c) by {
                    if k >= 2 {
                        assert(out[k] == o[k - 2]);
                    }
                }
            } else {
                lemma_squeeze_ok(t, base + r, c);
                let out = squeeze(s, base).0;
                let o = squeeze(t, base + r).0;
                assert forall|k: int| 0 <= k < out.len() implies seg_ok(#[trigger] out[k], c) by {
                    if k >= r {
                        assert(out[k] == o[k - r]);
                    } else {
                        assert(out[k] == s[k]);
                    }
                }
            }
        } else {
            let t = s.skip(1);
            assert forall|k: int| 0 <= k < t.len() implies seg_ok(#[trigger] t[k], c) by {
                assert(t[k] == s[k + 1]);
            }
            lemma_squeeze_ok(t, base + 1, c);
            let out = squeeze(s, base).0;
            let o = squeeze(t, base + 1).0;
            assert forall|k: int| 0 <= k < out.len() implies seg_ok(#[trigger] out[k], c) by {
                if k >= 1 {
                    assert(out[k] == o[k - 1]);
                }
            }
        }
    }
}

/// The whitespace stage keeps every segment free of `⟦c`.
proof fn lemma_ws_ok(s: Seq<Seq<char>>, c: char)
    requires
        all_ok(s, c),
        c != ' ',
        c != '\r',
    ensures
        all_ok(ws_compress_spec(s).0, c),
        ws_compress_spec(s).0.len() <= s.len(),
        s.len() > 0 ==> ws_compress_spec(s).0.len() > 0,
{
    lemma_squeeze_ok(s, 0, c);
    lemma_ws_lines_ok(squeeze(s, 0).0, 0, c);
}

/// A repeat marker holds no line feed and no `⟦` but its first character,
/// which is followed by `R`.
proof fn lemma_rep_marker_ok(n: nat, c: char)
    requires
        c != 'R',
    ensures
        seg_ok(rep_marker(n), c),
{
    lemma_decimal(n);
    let m = rep_marker(n);
    let d = crate::text::decimal(n);
    assert forall|p: int| 0 <= p && p + 1 < m.len() implies !(#[trigger] m[p] == open_bracket()
        && m[p + 1] == c) by {
        if p >= 5 && p < 5 + d.len() {
            assert(m[p] == d[p - 5]);
            assert(crate::text::is_digit(d[p - 5]));
        } else if p >= 5 + d.len() {
            assert(m[p] == crate::dedup::rep_suffix()[p - 5 - d.len()]);
        }
    }
    assert forall|j: int| 0 <= j < m.len() implies #[trigger] m[j] != newline() by {
        if j >= 5 && j < 5 + d.len() {
            assert(m[j] == d[j - 5]);
            assert(crate::text::is_digit(d[j - 5]));
        } else if j >= 5 + d.len() {
            assert(m[j] == crate::dedup::rep_suffix()[j - 5 - d.len()]);
        }
    }
}

/// Deduplication keeps every segment free of `⟦c` for `c` other than `R`, and
/// keeps at least one segment of a nonempty input.
proof fn lemma_dedup_ok(s: Seq<Seq<char>>, c: char)
    requires
        all_ok(s, c),
        c != 'R',
    ensures
        all_ok(dedup_spec(s), c),
        s.len() > 0 ==> dedup_spec(s).len() > 0,
    decreases s.len(),
{
    if s.len() > 0 {
        let r = run_len(s);
        lemma_run_len(s);
        let t = s.skip(r as int);
        assert forall|k: int| 0 <= k < t.len() implies seg_ok(#[trigger] t[k], c) by {
            assert(t[k] == s[k + r]);
        }
        lemma_dedup_ok(t, c);
        let rest = dedup_spec(t);
        let out = dedup_spec(s);
        if r >= 3 {
            lemma_rep_marker_ok(r, c);
            assert(out == seq![rep_marker(r), s[0]] + rest);
            assert forall|k: int| 0 <= k < out.len() implies seg_ok(#[trigger] out[k], c) by {
                if k >= 2 {
                    assert(out[k] == rest[k - 2]);
                }
            }
        } else {
            assert(out == s.take(r as int) + rest);
            assert forall|k: int| 0 <= k < out.len() implies seg_ok(#[trigger] out[k], c) by {
                if k >= r {
                    assert(out[k] == rest[k - r]);
                } else {
                    assert(out[k] == s[k]);
                }
            }
        }
    }
}

/// A segment free of `⟦R` is no repeat marker.
proof fn lemma_not_rep(seg: Seq<char>)
    requires
        no_marker_pair(seg, 'R'),
    ensures
        parse_rep(seg) is None,
{
    if seg.len() >= 7 && seg.take(5) == rep_prefix() {
        assert(seg[0] == seg.take(5)[0] && seg[1] == seg.take(5)[1]);
        assert(seg[0] == open_bracket() && seg[1] == 'R');
    }
}

/// A URL marker holds no line feed and no `⟦` but its first character, which
/// is followed by `U`.
proof fn lemma_url_marker_ok(id: nat, c: char)
    requires
        c != 'U',
    ensures
        seg_ok(url_marker(id), c),
        url_marker(id).len() > 0,
        url_marker(id)[0] == open_bracket(),
        url_marker(id).last() != open_bracket(),
{
    lemma_decimal(id);
    let m = url_marker(id);
    let d = crate::text::decimal(id);
    assert forall|p: int| 0 <= p && p + 1 < m.len() implies !(#[trigger] m[p] == open_bracket()
        && m[p + 1] == c) by {
        if p >= 2 && p < 2 + d.len() {
            assert(m[p] == d[p - 2]);
            assert(crate::text::is_digit(d[p - 2]));
        }
    }
    assert forall|j: int| 0 <= j < m.len() implies #[trigger] m[j] != newline() by {
        if j >= 2 && j < 2 + d.len() {
            assert(m[j] == d[j - 2]);
            assert(crate::text::is_digit(d[j - 2]));
        }
    }
}

/// Replacing URLs by markers keeps the rest of a segment from `i` free of
/// `⟦c` for `c` other than `U` and `⟦`; the output starts with `s[i]` or with
/// a marker.
proof fn lemma_urls_line_ok(s: Seq<char>, i: int, u: Seq<Seq<char>>, c: char)
    requires
        seg_ok(s, c),
        c != 'U',
        c != open_bracket(),
        0 <= i,
    ensures
        seg_ok(urls_line(s, i, u).0, c),
        urls_line(s, i, u).0.len() > 0 ==> i < s.len() && (urls_line(s, i, u).0[0] == s[i]
            || urls_line(s, i, u).0[0] == open_bracket()),
    decreases s.len() - i,
{
    if i < s.len() {
        if scheme_len(s, i) > 0 {
            let j = url_end(s, i);
            lemma_url_end(s, i);
            assert(!url_stop(s[i])) by {
                if occurs_at(s, i, crate::urls::https_seq()) {
                    assert(s[i] == s.subrange(i, i + 8)[0]);
                } else {
                    assert(s[i] == s.subrange(i, i + 7)[0]);
                }
            }
            if url_boundary(s, i) && s.subrange(i, j).len() > 24 {
                let url = s.subrange(i, j);
                let (id, u1) = url_id(u, url);
                lemma_urls_line_ok(s, j, u1, c);
                let o = urls_line(s, j, u1).0;
                lemma_url_marker_ok(id as nat, c);
                lemma_ok_concat(url_marker(id as nat), o, c);
            } else {
                lemma_urls_line_ok(s, j, u, c);
                let o = urls_line(s, j, u).0;
                let piece = s.subrange(i, j);
                lemma_ok_subrange(s, i, j, c);
                if o.len() > 0 && piece.last() == open_bracket() {
                    assert(piece.last() == s[j - 1]);
                    assert(o[0] != c);
                }
                lemma_ok_concat(piece, o, c);
            }
        } else {
            lemma_urls_line_ok(s, i + 1, u, c);
            let o = urls_line(s, i + 1, u).0;
            lemma_ok_subrange(s, i, i + 1, c);
            assert(s.subrange(i, i + 1) =~= seq![s[i]]);
            lemma_ok_concat(seq![s[i]], o, c);
        }
    }
}

proof fn lemma_urls_segs_ok(segs: Seq<Seq<char>>, u: Seq<Seq<char>>, c: char)
    requires
        all_ok(segs, c),
        c != 'U',
        c != open_bracket(),
    ensures
        all_ok(urls_segs(segs, u).0, c),
        urls_segs(segs, u).0.len() == segs.len(),
    decreases segs.len(),
{
    if segs.len() > 0 {
        let (o, u1) = urls_line(segs[0], 0, u);
        lemma_urls_line_ok(segs[0], 0, u, c);
        let t = segs.skip(1);
        assert forall|k: int| 0 <= k < t.len() implies seg_ok(#[trigger] t[k], c) by {
            assert(t[k] == segs[k + 1]);
        }
        lemma_urls_segs_ok(t, u1, c);
        let out = urls_segs(segs, u).0;
        let rest = urls_segs(t, u1).0;
        assert forall|k: int| 0 <= k < out.len() implies seg_ok(#[trigger] out[k], c) by {
            if k > 0 {
                assert(out[k] == rest[k - 1]);
            }
        }
    }
}

/// A filler marker holds no line feed.
proof fn lemma_filler_marker_nl(id: nat)
    ensures
        no_newline(filler_marker(id)),
{
    lemma_decimal(id);
    let m = filler_marker(id);
    let d = crate::text::decimal(id);
    assert forall|j: int| 0 <= j < m.len() implies #[trigger] m[j] != newline() by {
        if j >= 2 && j < 2 + d.len() {
            assert(m[j] == d[j - 2]);
            assert(crate::text::is_digit(d[j - 2]));
        }
    }
}

proof fn lemma_nl_concat(a: Seq<char>, b: Seq<char>)
    requires
        no_newline(a),
        no_newline(b),
    ensures
        no_newline(a + b),
{
    assert forall|j: int| 0 <= j < (a + b).len() implies #[trigger] (a + b)[j] != newline() by {
        if j < a.len() {
            assert((a + b)[j] == a[j]);
        } else {
            assert((a + b)[j] == b[j - a.len()]);
        }
    }
}

/// Replacing filler phrases by markers adds no line feed.
proof fn lemma_filler_line_nl(rest: Seq<char>, used: Seq<u32>)
    requires
        no_newline(rest),
    ensures
        no_newline(filler_line(rest, used).0),
    decreases rest.len(),
{
    if rest.len() > 0 {
        match best_upto(rest, PHRASE_COUNT as int) {
            Some((pos, id)) => {
                lemma_best_upto(rest, PHRASE_COUNT as int);
                lemma_phrase_nonempty(id);
                let after = rest.skip(pos + phrase(id).len());
                assert forall|j: int| 0 <= j < after.len() implies #[trigger] after[j]
                    != newline() by {
                    assert(after[j] == rest[j + pos + phrase(id).len()]);
                }
                lemma_filler_line_nl(after, add_used(used, id));
                let o = filler_line(after, add_used(used, id)).0;
                let head = rest.take(pos);
                assert forall|j: int| 0 <= j < head.len() implies #[trigger] head[j]
                    != newline() by {
                    assert(head[j] == rest[j]);
                }
                lemma_filler_marker_nl(id as nat);
                lemma_nl_concat(head, filler_marker(id as nat));
                lemma_nl_concat(head + filler_marker(id as nat), o);
            },
            None => {},
        }
    }
}

proof fn lemma_filler_segs_nl(segs: Seq<Seq<char>>, used: Seq<u32>)
    requires
        forall|k: int| 0 <= k < segs.len() ==> no_newline(#[trigger] segs[k]),
    ensures
        forall|k: int|
            0 <= k < filler_segs(segs, used).0.len() ==> no_newline(
                #[trigger] filler_segs(segs, used).0[k],
            ),
        filler_segs(segs, used).0.len() == segs.len(),
    decreases segs.len(),
{
    if segs.len() > 0 {
        let (o, u1) = filler_line(segs[0], used);
        lemma_filler_line_nl(segs[0], used);
        let t = segs.skip(1);
        assert forall|k: int| 0 <= k < t.len() implies no_newline(#[trigger] t[k]) by {
            assert(t[k] == segs[k + 1]);
        }
        lemma_filler_segs_nl(t, u1);
        let out = filler_segs(segs, used).0;
        let rest = filler_segs(t, u1).0;
        assert forall|k: int| 0 <= k < out.len() implies no_newline(#[trigger] out[k]) by {
            if k > 0 {
                assert(out[k] == rest[k - 1]);
            }
        }
    }
}

/// A split has at most one segment more than the text has characters.
proof fn lemma_split_len(s: Seq<char>)
    ensures
        split_lines(s).len() <= s.len() + 1,
    decreases s.len(),
{
    if s.len() > 0 {
        lemma_split_len(s.drop_last());
        lemma_split_lines_shape(s.drop_last());
    }
}

/// Undoing a stage that ran, or skipping one that did not, leaves the rest of
/// the expansion to the earlier stages.
proof fn lemma_expand_step(
    segs: Seq<Seq<char>>,
    prev: Seq<Seq<char>>,
    names: Seq<Seq<char>>,
    name: Seq<char>,
    on: bool,
    m: TcModel,
)
    requires
        on ==> stage_inverse(segs, name, m) == Ok::<Seq<Seq<char>>, Seq<char>>(prev),
        !on ==> segs == prev,
    ensures
        expand_stages(segs, names + name_if(on, name), m) == expand_stages(prev, names, m),
{
    if on {
        let n = names + seq![name];
        assert(n.last() == name);
        assert(n.drop_last() =~= names);
    } else {
        assert(names + name_if(on, name) =~= names);
    }
}

/// The round trip: for every input whose escaped text fits in memory, under
/// every choice of stages, expanding the compressed body with its map gives
/// the input back. The URL list fits in a `Vec`, as it does in every map
/// [`compress_text`](crate::compress::compress_text) returns.
pub proof fn lemma_roundtrip(input: Seq<char>, opts: Options)
    requires
        fits_in_memory(input),
        compress_spec(input, opts).1.urls.len() <= usize::MAX,
    ensures
        expand_spec(join_lines(compress_spec(input, opts).0), compress_spec(input, opts).1)
            == Ok::<Seq<char>, Seq<char>>(input),
{
    let e = escape_spec(input);
    lemma_escape_shape(input);
    lemma_escaped_no_pair(e, 'R');
    lemma_escaped_no_pair(e, 'U');
    lemma_escaped_no_pair(e, 'F');
    let s0 = split_lines(e);
    lemma_split_ok(e, 'R');
    lemma_split_ok(e, 'U');
    lemma_split_ok(e, 'F');
    lemma_split_lines_shape(e);
    lemma_split_len(e);
    lemma_utf8_len_at_least(e);
    let (s1, wm) = ws_stage(s0, opts.ws);
    if opts.ws {
        lemma_ws_ok(s0, 'R');
        lemma_ws_ok(s0, 'U');
        lemma_ws_ok(s0, 'F');
    }
    let s2 = dedup_stage(s1, opts.dedup);
    if opts.dedup {
        lemma_dedup_ok(s1, 'U');
        lemma_dedup_ok(s1, 'F');
    }
    let (s3, u) = urls_stage(s2, opts.urls);
    if opts.urls {
        lemma_urls_segs_ok(s2, Seq::empty(), 'F');
    }
    let (s4, f) = filler_stage(s3, opts.filler);
    if opts.filler {
        lemma_filler_segs_nl(s3, Seq::empty());
    }
    let m = compress_spec(input, opts).1;
    assert(compress_spec(input, opts).0 == s4);
    // the body splits back into the compressed segments
    assert(no_newlines(s4)) by {
        assert forall|k: int, j: int| 0 <= k < s4.len() && 0 <= j < s4[k].len() implies #[trigger] s4[k][j]
            != newline() by {
            assert(no_newline(s4[k]));
        }
    }
    lemma_split_join(s4);
    // each inverse undoes its stage
    let n1 = name_if(opts.ws, ws_name());
    let n2 = n1 + name_if(opts.dedup, dedup_name());
    let n3 = n2 + name_if(opts.urls, urls_name());
    assert(m.stages == n3 + name_if(opts.filler, filler_name()));
    assert(filler_name().len() == 6 && urls_name().len() == 4 && dedup_name().len() == 5
        && ws_name().len() == 2);
    if opts.filler {
        lemma_filler_roundtrip(s3, Seq::empty());
    }
    lemma_expand_step(s4, s3, n3, filler_name(), opts.filler, m);
    if opts.urls {
        assert forall|k: int| 0 <= k < s2.len() implies no_marker_pair(#[trigger] s2[k], 'U') by {
            assert(seg_ok(s2[k], 'U'));
        }
        lemma_urls_roundtrip(s2, Seq::empty());
    }
    lemma_expand_step(s3, s2, n2, urls_name(), opts.urls, m);
    if opts.dedup {
        assert forall|k: int| 0 <= k < s1.len() implies parse_rep(#[trigger] s1[k]) is None by {
            assert(seg_ok(s1[k], 'R'));
            lemma_not_rep(s1[k]);
        }
        lemma_dedup_roundtrip(s1);
    }
    lemma_expand_step(s2, s1, n1, dedup_name(), opts.dedup, m);
    if opts.ws {
        lemma_ws_roundtrip(s0);
    }
    assert(Seq::<Seq<char>>::empty() + n1 == n1);
    lemma_expand_step(s1, s0, Seq::empty(), ws_name(), opts.ws, m);
    assert(expand_stages(s0, Seq::empty(), m) == Ok::<Seq<Seq<char>>, Seq<char>>(s0));
    lemma_join_split(e);
    lemma_unescape_escape(input);
}

/// Expansion reads only the map's stage list, URL list and whitespace map.
proof fn lemma_expand_reads(segs: Seq<Seq<char>>, stages: Seq<Seq<char>>, m1: TcModel, m2: TcModel)
    requires
        m1.urls == m2.urls,
        m1.ws == m2.ws,
    ensures
        expand_stages(segs, stages, m1) == expand_stages(segs, stages, m2),
    decreases stages.len(),
{
    if stages.len() > 0 {
        assert(stage_inverse(segs, stages.last(), m1) == stage_inverse(segs, stages.last(), m2));
        match stage_inverse(segs, stages.last(), m1) {
            Ok(prev) => lemma_expand_reads(prev, stages.drop_last(), m1, m2),
            _ => {},
        }
    }
}

/// The whole inline round trip: compress, frame the body with the map's JSON
/// under the separator [`sep_for`] chooses, find the footer again, read back
/// a map equal to the one compression made (with that separator recorded),
/// cut the body off and expand it: the input comes back. The JSON holds no
/// footer header; the other conditions are those of [`lemma_roundtrip`].
pub proof fn lemma_inline_pipeline(input: Seq<char>, opts: Options, json: Seq<char>)
    requires
        fits_in_memory(input),
        compress_spec(input, opts).1.urls.len() <= usize::MAX,
        forall|i: int| !occurs_at(json, i, open_prefix()),
    ensures
        ({
            let body = join_lines(compress_spec(input, opts).0);
            let sep = sep_for(body);
            let m = TcModel { sep: sep, ..compress_spec(input, opts).1 };
            let t = framed(body, sep, m.stages, json);
            &&& locate_spec(t) == Ok::<(int, Seq<char>), Seq<char>>(((body + sep).len() as int, json))
            &&& body_spec(t, (body + sep).len() as int, m) == Ok::<Seq<char>, Seq<char>>(body)
            &&& expand_spec(body, m) == Ok::<Seq<char>, Seq<char>>(input)
        }),
{
    let body = join_lines(compress_spec(input, opts).0);
    let sep = sep_for(body);
    let m0 = compress_spec(input, opts).1;
    let m = TcModel { sep: sep, ..m0 };
    let names = m.stages;
    assert forall|k: int, j: int| 0 <= k < names.len() && 0 <= j < names[k].len() implies #[trigger] names[k][j]
        != '\u{27E6}' && names[k][j] != '\u{27E7}' by {
        let n1 = name_if(opts.ws, ws_name());
        let n2 = n1 + name_if(opts.dedup, dedup_name());
        let n3 = n2 + name_if(opts.urls, urls_name());
        assert(names == n3 + name_if(opts.filler, filler_name()));
        assert(names[k] == ws_name() || names[k] == dedup_name() || names[k] == urls_name()
            || names[k] == filler_name());
    }
    lemma_inline_roundtrip(body, sep, names, json, m);
    lemma_roundtrip(input, opts);
    lemma_expand_reads(split_lines(body), m.stages, m, m0);
}

} // verus!
