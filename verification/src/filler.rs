//! Filler-phrase stage (reversible).
//!
//! Well-known LLM filler phrases are replaced with `⟦Fn⟧` markers. The phrase
//! list is fixed for map format v1, so expansion needs no per-phrase map
//! entries; `filler_used` is recorded for statistics only.

use vstd::prelude::*;
use crate::error::TcError;
use crate::escape::{close_bracket, no_marker_pair, open_bracket};
use crate::text::{
    chars_of, chars_to_strings, decimal, decimal_exec, extend_chars, find_exec, find_from,
    lemma_find_from_bounds, lemma_find_from_first, lemma_find_from_none, lemma_parse_decimal,
    occurs_at, parse_usize, parse_usize_exec, string_of, strings_to_chars, text_with_two_numbers,
    view_lines,
};

verus! {

/// The number of phrases of map format v1.
pub const PHRASE_COUNT: usize = 12;

/// The fixed phrase list of map format v1, by id. Never reordered or edited:
/// ids are stored in compressed text.
pub open spec fn phrase(id: int) -> Seq<char> {
    if id == 0 {
        "Great question! "@
    } else if id == 1 {
        "I'd be happy to help! "@
    } else if id == 2 {
        "I'd be happy to help. "@
    } else if id == 3 {
        "Certainly! "@
    } else if id == 4 {
        "Sure thing! "@
    } else if id == 5 {
        "Absolutely! "@
    } else if id == 6 {
        "I hope this helps! "@
    } else if id == 7 {
        "I hope this helps. "@
    } else if id == 8 {
        "Let me know if you have any questions! "@
    } else if id == 9 {
        "Let me know if you have any questions. "@
    } else if id == 10 {
        "As an AI language model, "@
    } else if id == 11 {
        "Thanks for asking! "@
    } else {
        Seq::empty()
    }
}

/// The phrase with id `id`.
pub fn phrase_str(id: usize) -> (r: &'static str)
    requires
        id < PHRASE_COUNT,
    ensures
        r@ == phrase(id as int),
{
    if id == 0 {
        "Great question! "
    } else if id == 1 {
        "I'd be happy to help! "
    } else if id == 2 {
        "I'd be happy to help. "
    } else if id == 3 {
        "Certainly! "
    } else if id == 4 {
        "Sure thing! "
    } else if id == 5 {
        "Absolutely! "
    } else if id == 6 {
        "I hope this helps! "
    } else if id == 7 {
        "I hope this helps. "
    } else if id == 8 {
        "Let me know if you have any questions! "
    } else if id == 9 {
        "Let me know if you have any questions. "
    } else if id == 10 {
        "As an AI language model, "
    } else {
        "Thanks for asking! "
    }
}

/// No phrase is empty.
pub proof fn lemma_phrase_nonempty(id: int)
    requires
        0 <= id < PHRASE_COUNT,
    ensures
        phrase(id).len() > 0,
{
    reveal_strlit("Great question! ");
    reveal_strlit("I'd be happy to help! ");
    reveal_strlit("I'd be happy to help. ");
    reveal_strlit("Certainly! ");
    reveal_strlit("Sure thing! ");
    reveal_strlit("Absolutely! ");
    reveal_strlit("I hope this helps! ");
    reveal_strlit("I hope this helps. ");
    reveal_strlit("Let me know if you have any questions! ");
    reveal_strlit("Let me know if you have any questions. ");
    reveal_strlit("As an AI language model, ");
    reveal_strlit("Thanks for asking! ");
}

/// `⟦F`, the start of a filler marker.
pub open spec fn filler_marker_open() -> Seq<char> {
    seq![open_bracket(), 'F']
}

/// The marker `⟦Fid⟧`.
pub open spec fn filler_marker(id: nat) -> Seq<char> {
    filler_marker_open() + decimal(id) + seq![close_bracket()]
}

/// The id of a filler marker: `⟦F` + ASCII digits + `⟧`, at least one digit,
/// value fitting in `usize`.
pub open spec fn parse_filler_marker(frag: Seq<char>) -> Option<usize> {
    if frag.len() >= 3 && frag.take(2) == filler_marker_open() && frag.last() == close_bracket() {
        parse_usize(frag.subrange(2, frag.len() - 1))
    } else {
        None
    }
}

/// The earliest occurrence among phrases `0..k` in `rest`, as (position, id);
/// of phrases at the same position the one with the greatest id wins.
pub open spec fn best_upto(rest: Seq<char>, k: int) -> Option<(int, int)>
    decreases k,
{
    if k <= 0 {
        None
    } else {
        let prev = best_upto(rest, k - 1);
        match find_from(rest, phrase(k - 1), 0) {
            Some(p) => match prev {
                Some((bp, bid)) => if p > bp {
                    prev
                } else {
                    Some((p, k - 1))
                },
                None => Some((p, k - 1)),
            },
            None => prev,
        }
    }
}

/// The used-id list after `id` was used.
pub open spec fn add_used(used: Seq<u32>, id: int) -> Seq<u32> {
    if used.contains(id as u32) {
        used
    } else {
        used.push(id as u32)
    }
}

/// `rest` with every filler phrase replaced by its marker, earliest first,
/// and the used-id list after it.
pub open spec fn filler_line(rest: Seq<char>, used: Seq<u32>) -> (Seq<char>, Seq<u32>)
    decreases rest.len(),
{
    if rest.len() == 0 {
        (Seq::empty(), used)
    } else {
        match best_upto(rest, PHRASE_COUNT as int) {
            Some((pos, id)) => {
                proof {
                    lemma_best_upto(rest, PHRASE_COUNT as int);
                    lemma_phrase_nonempty(id);
                }
                let (o, u) = filler_line(rest.skip(pos + phrase(id).len()), add_used(used, id));
                (rest.take(pos) + filler_marker(id as nat) + o, u)
            },
            None => (rest, used),
        }
    }
}

/// Every segment through [`filler_line`], threading the used-id list.
pub open spec fn filler_segs(segs: Seq<Seq<char>>, used: Seq<u32>) -> (Seq<Seq<char>>, Seq<u32>)
    decreases segs.len(),
{
    if segs.len() == 0 {
        (Seq::empty(), used)
    } else {
        let (o, u) = filler_line(segs[0], used);
        let (os, u2) = filler_segs(segs.skip(1), u);
        (seq![o] + os, u2)
    }
}

/// The chosen occurrence is a real occurrence of a known phrase.
pub proof fn lemma_best_upto(rest: Seq<char>, k: int)
    ensures
        best_upto(rest, k) matches Some((p, id)) ==> 0 <= id < k && 0 <= p && occurs_at(
            rest,
            p,
            phrase(id),
        ),
    decreases k,
{
    if k > 0 {
        lemma_best_upto(rest, k - 1);
        lemma_find_from_bounds(rest, phrase(k - 1), 0);
    }
}

// ---------------------------------------------------------------------------
// Compression
// ---------------------------------------------------------------------------

/// The marker `⟦Fid⟧`.
pub fn marker(id: usize) -> (r: String)
    ensures
        r@ == filler_marker(id as nat),
{
    let v = marker_chars(id);
    string_of(v.as_slice())
}

fn marker_chars(id: usize) -> (r: Vec<char>)
    ensures
        r@ == filler_marker(id as nat),
{
    let mut r: Vec<char> = vec!['\u{27E6}', 'F'];
    let d = decimal_exec(id);
    extend_chars(&mut r, d.as_slice());
    r.push('\u{27E7}');
    assert(r@ =~= filler_marker(id as nat));
    r
}

/// The id of `frag` if it is a filler marker.
pub fn parse_marker(frag: &str) -> (r: Option<usize>)
    ensures
        r == parse_filler_marker(frag@),
{
    let v = chars_of(frag);
    parse_marker_chars(v.as_slice())
}

fn parse_marker_chars(v: &[char]) -> (r: Option<usize>)
    ensures
        r == parse_filler_marker(v@),
{
    let n = v.len();
    if n < 3 {
        return None;
    }
    let ok = v[0] == '\u{27E6}' && v[1] == 'F' && v[n - 1] == '\u{27E7}';
    assert(ok == (v@.take(2) == filler_marker_open() && v@.last() == close_bracket())) by {
        if v@.take(2) == filler_marker_open() {
            assert(v@.take(2)[0] == v@[0] && v@.take(2)[1] == v@[1]);
        }
        if ok {
            assert(v@.take(2) =~= filler_marker_open());
        }
    }
    if !ok {
        return None;
    }
    let digits = vstd::slice::slice_subrange(v, 2, n - 1);
    parse_usize_exec(digits)
}

/// Whether `id` is already in `used`.
fn used_contains(used: &Vec<u32>, id: u32) -> (r: bool)
    ensures
        r == used@.contains(id),
{
    let mut k: usize = 0;
    while k < used.len()
        invariant
            k <= used@.len(),
            forall|q: int| 0 <= q < k ==> used@[q] != id,
        decreases used@.len() - k,
    {
        if used[k] == id {
            assert(used@[k as int] == id);
            return true;
        }
        k += 1;
    }
    false
}

/// Replaces filler phrases by markers in every segment, recording the ids
/// used in `used`.
pub fn compress(segs: Vec<String>, used: &mut Vec<u32>) -> (r: Vec<String>)
    ensures
        (r.deep_view(), final(used)@) == filler_segs(segs.deep_view(), old(used)@),
{
    let v = strings_to_chars(&segs);
    let out = compress_lines(&v, used);
    chars_to_strings(&out)
}

/// [`compress`] on character vectors.
pub fn compress_lines(segs: &Vec<Vec<char>>, used: &mut Vec<u32>) -> (r: Vec<Vec<char>>)
    ensures
        (view_lines(r@), final(used)@) == filler_segs(view_lines(segs@), old(used)@),
{
    let ghost s = view_lines(segs@);
    let ghost u0 = used@;
    let mut out: Vec<Vec<char>> = Vec::new();
    let mut i: usize = 0;
    assert(s.skip(0) =~= s);
    assert(view_lines(out@) + filler_segs(s, u0).0 =~= filler_segs(s, u0).0);
    while i < segs.len()
        invariant
            s == view_lines(segs@),
            i <= segs@.len(),
            view_lines(out@) + filler_segs(s.skip(i as int), used@).0 == filler_segs(s, u0).0,
            filler_segs(s.skip(i as int), used@).1 == filler_segs(s, u0).1,
        decreases segs@.len() - i,
    {
        let ghost rest = s.skip(i as int);
        let ghost o0 = view_lines(out@);
        let ghost uc = used@;
        assert(rest[0] == s[i as int]);
        let o = compress_one(segs[i].as_slice(), used);
        out.push(o);
        i += 1;
        proof {
            assert(rest.skip(1) =~= s.skip(i as int));
            assert(view_lines(out@) =~= o0.push(filler_line(rest[0], uc).0));
            assert(view_lines(out@) + filler_segs(s.skip(i as int), used@).0
                =~= o0 + filler_segs(rest, uc).0);
        }
    }
    assert(s.skip(i as int) =~= Seq::<Seq<char>>::empty());
    assert(view_lines(out@) + Seq::<Seq<char>>::empty() =~= view_lines(out@));
    out
}

/// The earliest phrase occurrence in `rest`.
fn best_phrase(rest: &[char]) -> (r: Option<(usize, usize)>)
    ensures
        match best_upto(rest@, PHRASE_COUNT as int) {
            Some((p, id)) => r == Some((p as usize, id as usize)),
            None => r is None,
        },
{
    let mut best: Option<(usize, usize)> = None;
    let mut id: usize = 0;
    let n = rest.len();
    while id < PHRASE_COUNT
        invariant
            n == rest@.len(),
            id <= PHRASE_COUNT,
            match best_upto(rest@, id as int) {
                Some((p, q)) => best == Some((p as usize, q as usize)) && 0 <= p <= rest@.len() && 0 <= q < id,
                None => best is None,
            },
        decreases PHRASE_COUNT - id,
    {
        let ph = chars_of(phrase_str(id));
        proof {
            lemma_find_from_bounds(rest@, phrase(id as int), 0);
        }
        match find_exec(rest, ph.as_slice(), 0) {
            Some(p) => {
                match best {
                    Some((bp, _)) => {
                        if p > bp {
                        } else {
                            best = Some((p, id));
                        }
                    },
                    None => {
                        best = Some((p, id));
                    },
                }
            },
            None => {},
        }
        id += 1;
    }
    best
}

/// One segment.
fn compress_one(seg: &[char], used: &mut Vec<u32>) -> (r: Vec<char>)
    ensures
        (r@, final(used)@) == filler_line(seg@, old(used)@),
{
    let ghost u0 = used@;
    let mut out: Vec<char> = Vec::new();
    let mut start: usize = 0;
    assert(seg@.skip(0) =~= seg@);
    assert(out@ + filler_line(seg@, u0).0 =~= filler_line(seg@, u0).0);
    while start < seg.len()
        invariant
            start <= seg@.len(),
            out@ + filler_line(seg@.skip(start as int), used@).0 == filler_line(seg@, u0).0,
            filler_line(seg@.skip(start as int), used@).1 == filler_line(seg@, u0).1,
        decreases seg@.len() - start,
    {
        let rest = vstd::slice::slice_subrange(seg, start, seg.len());
        assert(rest@ =~= seg@.skip(start as int));
        let ghost o0 = out@;
        let ghost uc = used@;
        match best_phrase(rest) {
            Some((pos, id)) => {
                proof {
                    lemma_best_upto(rest@, PHRASE_COUNT as int);
                    lemma_phrase_nonempty(id as int);
                }
                let head = vstd::slice::slice_subrange(rest, 0, pos);
                extend_chars(&mut out, head);
                let m = marker_chars(id);
                extend_chars(&mut out, m.as_slice());
                if !used_contains(used, id as u32) {
                    used.push(id as u32);
                }
                let plen = chars_of(phrase_str(id)).len();
                start = start + pos + plen;
                proof {
                    assert(rest@.skip(pos + plen) =~= seg@.skip(start as int));
                    assert(used@ == add_used(uc, id as int));
                    assert(out@ =~= o0 + (rest@.take(pos as int) + filler_marker(id as nat)));
                    assert(out@ + filler_line(seg@.skip(start as int), used@).0 =~= o0 + filler_line(rest@, uc).0);
                }
            },
            None => {
                extend_chars(&mut out, rest);
                start = seg.len();
                proof {
                    assert(seg@.skip(start as int) =~= Seq::<char>::empty());
                    assert(out@ + Seq::<char>::empty() =~= o0 + filler_line(rest@, uc).0);
                }
            },
        }
    }
    assert(seg@.skip(start as int) =~= Seq::<char>::empty());
    assert(out@ + Seq::<char>::empty() =~= out@);
    out
}

// ---------------------------------------------------------------------------
// Expansion
// ---------------------------------------------------------------------------

/// Error message for a filler marker without its `⟧`.
pub open spec fn unterminated_filler_msg() -> Seq<char> {
    "corrupt map: unterminated filler marker"@
}

/// Error message for a filler id outside the phrase list.
pub open spec fn filler_id_msg(id: nat) -> Seq<char> {
    "corrupt map: filler id "@ + decimal(id) + " outside known list (v1 has "@ + decimal(
        PHRASE_COUNT as nat,
    ) + " phrases)"@
}

/// `p` in front of a successful expansion.
pub open spec fn prefix_ok(p: Seq<char>, r: Result<Seq<char>, Seq<char>>) -> Result<Seq<char>, Seq<char>> {
    match r {
        Ok(x) => Ok(p + x),
        Err(e) => Err(e),
    }
}

/// `rest` with every filler marker replaced by its phrase; a `⟦F…⟧` that is
/// not a well-formed marker keeps its `⟦` and expansion goes on after it.
pub open spec fn filler_expand_rest(rest: Seq<char>) -> Result<Seq<char>, Seq<char>>
    decreases rest.len(),
{
    match find_from(rest, filler_marker_open(), 0) {
        None => Ok(rest),
        Some(pos) => {
            proof {
                lemma_find_from_bounds(rest, filler_marker_open(), 0);
            }
            let tail = rest.skip(pos);
            match find_from(tail, seq![close_bracket()], 0) {
                None => Err(unterminated_filler_msg()),
                Some(end) => {
                    proof {
                        lemma_find_from_bounds(tail, seq![close_bracket()], 0);
                    }
                    match parse_filler_marker(tail.take(end + 1)) {
                        Some(id) => if id < PHRASE_COUNT {
                            prefix_ok(
                                rest.take(pos) + phrase(id as int),
                                filler_expand_rest(tail.skip(end + 1)),
                            )
                        } else {
                            Err(filler_id_msg(id as nat))
                        },
                        None => prefix_ok(
                            rest.take(pos) + seq![open_bracket()],
                            filler_expand_rest(tail.skip(1)),
                        ),
                    }
                },
            }
        },
    }
}

/// Every segment through [`filler_expand_rest`], stopping at the first error.
pub open spec fn filler_expand_segs(segs: Seq<Seq<char>>) -> Result<Seq<Seq<char>>, Seq<char>>
    decreases segs.len(),
{
    if segs.len() == 0 {
        Ok(Seq::empty())
    } else {
        match filler_expand_rest(segs[0]) {
            Ok(x) => match filler_expand_segs(segs.skip(1)) {
                Ok(xs) => Ok(seq![x] + xs),
                Err(e) => Err(e),
            },
            Err(e) => Err(e),
        }
    }
}

/// Replaces filler markers by their phrases in every segment.
pub fn expand(segs: Vec<String>) -> (r: Result<Vec<String>, TcError>)
    ensures
        match filler_expand_segs(segs.deep_view()) {
            Ok(v) => r is Ok && r->Ok_0.deep_view() == v,
            Err(m) => r is Err && r->Err_0.msg@ == m,
        },
{
    let v = strings_to_chars(&segs);
    match expand_lines(&v) {
        Ok(out) => Ok(chars_to_strings(&out)),
        Err(e) => Err(e),
    }
}

/// [`expand`] on character vectors.
pub fn expand_lines(segs: &Vec<Vec<char>>) -> (r: Result<Vec<Vec<char>>, TcError>)
    ensures
        match filler_expand_segs(view_lines(segs@)) {
            Ok(v) => r matches Ok(x) && view_lines(x@) == v,
            Err(m) => r matches Err(e) && e.msg@ == m,
        },
{
    let ghost s = view_lines(segs@);
    let mut out: Vec<Vec<char>> = Vec::new();
    let mut i: usize = 0;
    assert(s.skip(0) =~= s);
    assert(Seq::<Seq<char>>::empty() + s =~= s);
    while i < segs.len()
        invariant
            s == view_lines(segs@),
            i <= segs@.len(),
            filler_expand_segs(s) == match filler_expand_segs(s.skip(i as int)) {
                Ok(xs) => Ok(view_lines(out@) + xs),
                Err(e) => Err::<Seq<Seq<char>>, Seq<char>>(e),
            },
        decreases segs@.len() - i,
    {
        let ghost rest = s.skip(i as int);
        let ghost o0 = view_lines(out@);
        assert(rest[0] == s[i as int]);
        assert(rest.skip(1) =~= s.skip(i + 1));
        match expand_one(segs[i].as_slice()) {
            Err(e) => {
                return Err(e);
            },
            Ok(x) => {
                let ghost xv = x@;
                out.push(x);
                i += 1;
                proof {
                    assert(view_lines(out@) =~= o0.push(xv));
                    match filler_expand_segs(s.skip(i as int)) {
                        Ok(xs) => {
                            assert(o0.push(xv) + xs =~= o0 + (seq![xv] + xs));
                        },
                        _ => {},
                    }
                }
            },
        }
    }
    assert(s.skip(i as int) =~= Seq::<Seq<char>>::empty());
    assert(view_lines(out@) + Seq::<Seq<char>>::empty() =~= view_lines(out@));
    Ok(out)
}

/// One segment.
#[verifier::rlimit(40)]
fn expand_one(seg: &[char]) -> (r: Result<Vec<char>, TcError>)
    ensures
        match filler_expand_rest(seg@) {
            Ok(x) => r matches Ok(v) && v@ == x,
            Err(m) => r matches Err(e) && e.msg@ == m,
        },
{
    let open_f: Vec<char> = vec!['\u{27E6}', 'F'];
    let close: Vec<char> = vec!['\u{27E7}'];
    assert(open_f@ =~= filler_marker_open());
    assert(close@ =~= seq![close_bracket()]);
    let mut out: Vec<char> = Vec::new();
    let mut start: usize = 0;
    assert(seg@.skip(0) =~= seg@);
    assert(Seq::<char>::empty() + seg@ =~= seg@);
    loop
        invariant
            open_f@ == filler_marker_open(),
            close@ == seq![close_bracket()],
            start <= seg@.len(),
            filler_expand_rest(seg@) == prefix_ok(out@, filler_expand_rest(seg@.skip(start as int))),
        decreases seg@.len() - start,
    {
        let rest = vstd::slice::slice_subrange(seg, start, seg.len());
        assert(rest@ =~= seg@.skip(start as int));
        let ghost o0 = out@;
        proof {
            lemma_find_from_bounds(rest@, filler_marker_open(), 0);
        }
        match find_exec(rest, open_f.as_slice(), 0) {
            None => {
                extend_chars(&mut out, rest);
                return Ok(out);
            },
            Some(pos) => {
                let abs = start + pos;
                let tail = vstd::slice::slice_subrange(seg, abs, seg.len());
                assert(tail@ =~= rest@.skip(pos as int));
                proof {
                    lemma_find_from_bounds(tail@, seq![close_bracket()], 0);
                }
                let head = vstd::slice::slice_subrange(rest, 0, pos);
                assert(head@ =~= rest@.take(pos as int));
                match find_exec(tail, close.as_slice(), 0) {
                    None => {
                        let v = chars_of("corrupt map: unterminated filler marker");
                        return Err(TcError::new(string_of(v.as_slice())));
                    },
                    Some(end) => {
                        let frag = vstd::slice::slice_subrange(tail, 0, end + 1);
                        assert(frag@ =~= tail@.take(end + 1));
                        match parse_marker_chars(frag) {
                            Some(id) => {
                                if id < PHRASE_COUNT {
                                    extend_chars(&mut out, head);
                                    let ph = chars_of(phrase_str(id));
                                    extend_chars(&mut out, ph.as_slice());
                                    start = abs + end + 1;
                                    assert(tail@.skip(end + 1) =~= seg@.skip(start as int));
                                    assert(out@ =~= o0 + (rest@.take(pos as int) + phrase(id as int)));
                                    proof {
                                        match filler_expand_rest(seg@.skip(start as int)) {
                                            Ok(x) => {
                                                assert(o0 + (rest@.take(pos as int) + phrase(id as int) + x) =~= out@ + x);
                                            },
                                            _ => {},
                                        }
                                    }
                                } else {
                                    return Err(TcError::new(text_with_two_numbers(
                                        "corrupt map: filler id ",
                                        id,
                                        " outside known list (v1 has ",
                                        PHRASE_COUNT,
                                        " phrases)",
                                    )));
                                }
                            },
                            None => {
                                extend_chars(&mut out, head);
                                out.push('\u{27E6}');
                                start = abs + 1;
                                assert(tail@.skip(1) =~= seg@.skip(start as int));
                                assert(out@ =~= o0 + (rest@.take(pos as int) + seq![open_bracket()]));
                                proof {
                                    match filler_expand_rest(seg@.skip(start as int)) {
                                        Ok(x) => {
                                            assert(o0 + (rest@.take(pos as int) + seq![open_bracket()] + x) =~= out@ + x);
                                        },
                                        _ => {},
                                    }
                                }
                            },
                        }
                    },
                }
            },
        }
    }
}

// ---------------------------------------------------------------------------
// Round trip
// ---------------------------------------------------------------------------

proof fn lemma_no_pair_split(a: Seq<char>, b: Seq<char>)
    requires
        no_marker_pair(a + b, 'F'),
    ensures
        no_marker_pair(a, 'F'),
        no_marker_pair(b, 'F'),
{
    let x = a + b;
    assert forall|q: int| 0 <= q && q + 1 < a.len() implies !(#[trigger] a[q] == open_bracket() && a[q + 1] == 'F') by {
        assert(x[q] == a[q] && x[q + 1] == a[q + 1]);
    }
    assert forall|q: int| 0 <= q && q + 1 < b.len() implies !(#[trigger] b[q] == open_bracket() && b[q + 1] == 'F') by {
        assert(x[a.len() + q] == b[q] && x[a.len() + q + 1] == b[q + 1]);
    }
}

proof fn lemma_expand_plain(p: Seq<char>)
    requires
        no_marker_pair(p, 'F'),
    ensures
        filler_expand_rest(p) == Ok::<Seq<char>, Seq<char>>(p),
{
    assert forall|q: int| 0 <= q implies !occurs_at(p, q, filler_marker_open()) by {
        if occurs_at(p, q, filler_marker_open()) {
            assert(p.subrange(q, q + 2)[0] == p[q]);
            assert(p.subrange(q, q + 2)[1] == p[q + 1]);
        }
    }
    lemma_find_from_none(p, filler_marker_open(), 0);
}

proof fn lemma_parse_filler_marker(id: usize)
    ensures
        parse_filler_marker(filler_marker(id as nat)) == Some(id),
{
    let m = filler_marker(id as nat);
    lemma_parse_decimal(id);
    crate::text::lemma_decimal(id as nat);
    assert(m.take(2) =~= filler_marker_open());
    assert(m.subrange(2, m.len() - 1) =~= decimal(id as nat));
}

proof fn lemma_expand_marker(p: Seq<char>, id: int, q: Seq<char>)
    requires
        no_marker_pair(p, 'F'),
        0 <= id < PHRASE_COUNT,
    ensures
        filler_expand_rest(p + filler_marker(id as nat) + q) == prefix_ok(p + phrase(id), filler_expand_rest(q)),
{
    let m = filler_marker(id as nat);
    let x = p + m + q;
    crate::text::lemma_decimal(id as nat);
    let d = decimal(id as nat);
    assert(x.subrange(p.len() as int, p.len() as int + 2) =~= filler_marker_open());
    assert forall|r: int| 0 <= r < p.len() implies !occurs_at(x, r, filler_marker_open()) by {
        if occurs_at(x, r, filler_marker_open()) {
            assert(x.subrange(r, r + 2)[0] == x[r]);
            assert(x.subrange(r, r + 2)[1] == x[r + 1]);
            if r + 1 < p.len() {
                assert(x[r] == p[r] && x[r + 1] == p[r + 1]);
            } else {
                assert(x[r + 1] == m[0]);
            }
        }
    }
    lemma_find_from_first(x, filler_marker_open(), 0, p.len() as int);
    let tail = x.skip(p.len() as int);
    assert(tail =~= m + q);
    let end = m.len() - 1;
    assert(tail.subrange(end, end + 1) =~= seq![close_bracket()]);
    assert forall|r: int| 0 <= r < end implies !occurs_at(tail, r, seq![close_bracket()]) by {
        if occurs_at(tail, r, seq![close_bracket()]) {
            assert(tail.subrange(r, r + 1)[0] == tail[r]);
            if r >= 2 {
                assert(tail[r] == d[r - 2]);
                assert(crate::text::is_digit(d[r - 2]));
            }
        }
    }
    lemma_find_from_first(tail, seq![close_bracket()], 0, end);
    assert(tail.take(end + 1) =~= m);
    lemma_parse_filler_marker(id as usize);
    assert(tail.skip(end + 1) =~= q);
    assert(x.take(p.len() as int) =~= p);
}

proof fn lemma_filler_line_roundtrip(rest: Seq<char>, used: Seq<u32>, p: Seq<char>)
    requires
        no_marker_pair(p + rest, 'F'),
    ensures
        filler_expand_rest(p + filler_line(rest, used).0) == Ok::<Seq<char>, Seq<char>>(p + rest),
    decreases rest.len(),
{
    if rest.len() == 0 {
        assert(p + filler_line(rest, used).0 =~= p);
        assert(p + rest =~= p);
        lemma_expand_plain(p);
    } else {
        match best_upto(rest, PHRASE_COUNT as int) {
            Some((pos, id)) => {
                lemma_best_upto(rest, PHRASE_COUNT as int);
                lemma_phrase_nonempty(id);
                let plen = phrase(id).len() as int;
                let after = rest.skip(pos + plen);
                let (o, u) = filler_line(after, add_used(used, id));
                assert(p + filler_line(rest, used).0 =~= (p + rest.take(pos)) + filler_marker(id as nat) + o);
                assert(rest =~= rest.take(pos) + rest.subrange(pos, pos + plen) + after);
                assert(p + rest =~= (p + rest.take(pos)) + (rest.subrange(pos, pos + plen) + after));
                lemma_no_pair_split(p + rest.take(pos), rest.subrange(pos, pos + plen) + after);
                lemma_no_pair_split(rest.subrange(pos, pos + plen), after);
                lemma_expand_marker(p + rest.take(pos), id, o);
                assert(Seq::<char>::empty() + o =~= o);
                assert(Seq::<char>::empty() + after =~= after);
                lemma_filler_line_roundtrip(after, add_used(used, id), Seq::<char>::empty());
                assert(p + rest.take(pos) + phrase(id) + after =~= p + rest);
            },
            None => {
                assert(p + filler_line(rest, used).0 =~= p + rest);
                lemma_expand_plain(p + rest);
            },
        }
    }
}

/// Expanding what filler compression produced gives the segments back, when
/// no segment holds `⟦F` (escaped text never does).
pub proof fn lemma_filler_roundtrip(segs: Seq<Seq<char>>, used: Seq<u32>)
    requires
        forall|k: int| 0 <= k < segs.len() ==> no_marker_pair(#[trigger] segs[k], 'F'),
    ensures
        filler_expand_segs(filler_segs(segs, used).0) == Ok::<Seq<Seq<char>>, Seq<char>>(segs),
    decreases segs.len(),
{
    if segs.len() == 0 {
        assert(segs =~= Seq::<Seq<char>>::empty());
    } else {
        let (o, u1) = filler_line(segs[0], used);
        let rest = segs.skip(1);
        assert forall|k: int| 0 <= k < rest.len() implies no_marker_pair(#[trigger] rest[k], 'F') by {
            assert(rest[k] == segs[k + 1]);
        }
        assert(Seq::<char>::empty() + segs[0] =~= segs[0]);
        assert(Seq::<char>::empty() + o =~= o);
        lemma_filler_line_roundtrip(segs[0], used, Seq::<char>::empty());
        lemma_filler_roundtrip(rest, u1);
        let outs = filler_segs(segs, used).0;
        assert(outs[0] == o);
        assert(outs.skip(1) =~= filler_segs(rest, u1).0);
        assert(seq![segs[0]] + rest =~= segs);
    }
}

/// Every phrase is plain ASCII: no marker bracket occurs in one.
pub proof fn lemma_phrase_ascii(id: int)
    requires
        0 <= id < PHRASE_COUNT,
    ensures
        forall|j: int| 0 <= j < phrase(id).len() ==> (#[trigger] phrase(id)[j] as u32) < 128,
        phrase(id).len() >= 11,
{
    reveal_strlit("Great question! ");
    reveal_strlit("I'd be happy to help! ");
    reveal_strlit("I'd be happy to help. ");
    reveal_strlit("Certainly! ");
    reveal_strlit("Sure thing! ");
    reveal_strlit("Absolutely! ");
    reveal_strlit("I hope this helps! ");
    reveal_strlit("I hope this helps. ");
    reveal_strlit("Let me know if you have any questions! ");
    reveal_strlit("Let me know if you have any questions. ");
    reveal_strlit("As an AI language model, ");
    reveal_strlit("Thanks for asking! ");
}

/// No phrase occurs in `t`.
pub open spec fn phrase_free(t: Seq<char>) -> bool {
    forall|id: int, i: int| 0 <= id < PHRASE_COUNT ==> !#[trigger] occurs_at(t, i, phrase(id))
}

/// The chosen occurrence is the earliest of all phrases; with none chosen, no
/// phrase occurs.
proof fn lemma_best_upto_earliest(rest: Seq<char>, k: int)
    ensures
        match best_upto(rest, k) {
            Some((p, _)) => forall|i: int, q: int|
                0 <= i < k && q < p ==> !#[trigger] occurs_at(rest, q, phrase(i)),
            None => forall|i: int, q: int| 0 <= i < k ==> !#[trigger] occurs_at(rest, q, phrase(i)),
        },
    decreases k,
{
    if k > 0 {
        lemma_best_upto_earliest(rest, k - 1);
        lemma_best_upto(rest, k - 1);
        lemma_find_from_bounds(rest, phrase(k - 1), 0);
    }
}

/// A filler marker is short and starts and ends with a bracket.
proof fn lemma_filler_marker_shape(id: int)
    requires
        0 <= id < PHRASE_COUNT,
    ensures
        3 <= filler_marker(id as nat).len() <= 5,
        filler_marker(id as nat)[0] == open_bracket(),
        filler_marker(id as nat).last() == close_bracket(),
{
    reveal_with_fuel(decimal, 2);
    assert(decimal(id as nat).len() <= 2);
}

/// Replacing phrases leaves none: every phrase occurrence is replaced, and a
/// marker never combines with neighbouring text into a phrase.
pub proof fn lemma_filler_line_free(rest: Seq<char>, used: Seq<u32>)
    ensures
        phrase_free(filler_line(rest, used).0),
    decreases rest.len(),
{
    let out = filler_line(rest, used).0;
    if rest.len() == 0 {
        assert forall|id: int, i: int| 0 <= id < PHRASE_COUNT implies !#[trigger] occurs_at(out, i, phrase(id)) by {
            lemma_phrase_nonempty(id);
        }
    } else {
        lemma_best_upto_earliest(rest, PHRASE_COUNT as int);
        match best_upto(rest, PHRASE_COUNT as int) {
            Some((pos, id)) => {
                lemma_best_upto(rest, PHRASE_COUNT as int);
                lemma_phrase_nonempty(id);
                let after = rest.skip(pos + phrase(id).len());
                let u1 = add_used(used, id);
                lemma_filler_line_free(after, u1);
                let a = rest.take(pos);
                let m = filler_marker(id as nat);
                let o = filler_line(after, u1).0;
                lemma_filler_marker_shape(id);
                assert(out == a + m + o);
                let b = a.len() + m.len();
                assert forall|pid: int, i: int| 0 <= pid < PHRASE_COUNT implies !#[trigger] occurs_at(out, i, phrase(pid)) by {
                    let ph = phrase(pid);
                    lemma_phrase_ascii(pid);
                    if occurs_at(out, i, ph) {
                        let l = ph.len() as int;
                        assert(out.subrange(i, i + l) == ph);
                        if i + l <= a.len() {
                            assert(rest.subrange(i, i + l) =~= out.subrange(i, i + l)) by {
                                assert forall|j: int| 0 <= j < l implies #[trigger] rest.subrange(i, i + l)[j]
                                    == out.subrange(i, i + l)[j] by {
                                    assert(out[i + j] == a[i + j]);
                                }
                            }
                            assert(occurs_at(rest, i, ph));
                        } else if i >= b {
                            assert(o.subrange(i - b, i - b + l) =~= out.subrange(i, i + l)) by {
                                assert forall|j: int| 0 <= j < l implies #[trigger] o.subrange(i - b, i - b + l)[j]
                                    == out.subrange(i, i + l)[j] by {
                                    assert(out[i + j] == o[i - b + j]);
                                }
                            }
                            assert(occurs_at(o, i - b, ph));
                        } else if i <= a.len() {
                            assert(out[a.len() as int] == m[0]);
                            assert(ph[a.len() - i] == out.subrange(i, i + l)[a.len() - i]);
                        } else {
                            assert(out[b - 1] == m.last());
                            assert(ph[b - 1 - i] == out.subrange(i, i + l)[b - 1 - i]);
                        }
                    }
                }
            },
            None => {},
        }
    }
}

/// After the filler stage no phrase is left in any segment.
pub proof fn lemma_filler_segs_free(segs: Seq<Seq<char>>, used: Seq<u32>)
    ensures
        forall|k: int|
            0 <= k < filler_segs(segs, used).0.len() ==> phrase_free(#[trigger] filler_segs(segs, used).0[k]),
    decreases segs.len(),
{
    if segs.len() > 0 {
        let (o, u1) = filler_line(segs[0], used);
        lemma_filler_line_free(segs[0], used);
        lemma_filler_segs_free(segs.skip(1), u1);
        let out = filler_segs(segs, used).0;
        let rest = filler_segs(segs.skip(1), u1).0;
        assert forall|k: int| 0 <= k < out.len() implies phrase_free(#[trigger] out[k]) by {
            if k > 0 {
                assert(out[k] == rest[k - 1]);
            }
        }
    }
}

/// The v1 phrase table, entry by entry.
pub proof fn lemma_phrase_table()
    ensures
        phrase(0) == "Great question! "@,
        phrase(1) == "I'd be happy to help! "@,
        phrase(2) == "I'd be happy to help. "@,
        phrase(3) == "Certainly! "@,
        phrase(4) == "Sure thing! "@,
        phrase(5) == "Absolutely! "@,
        phrase(6) == "I hope this helps! "@,
        phrase(7) == "I hope this helps. "@,
        phrase(8) == "Let me know if you have any questions! "@,
        phrase(9) == "Let me know if you have any questions. "@,
        phrase(10) == "As an AI language model, "@,
        phrase(11) == "Thanks for asking! "@,
{
}

/// No two ids share a phrase, so each marker expands to the phrase it
/// replaced.
pub proof fn lemma_phrases_distinct(i: int, j: int)
    requires
        0 <= i < PHRASE_COUNT,
        0 <= j < PHRASE_COUNT,
        i != j,
    ensures
        phrase(i) != phrase(j),
{
    reveal_strlit("Great question! ");
    reveal_strlit("I'd be happy to help! ");
    reveal_strlit("I'd be happy to help. ");
    reveal_strlit("Certainly! ");
    reveal_strlit("Sure thing! ");
    reveal_strlit("Absolutely! ");
    reveal_strlit("I hope this helps! ");
    reveal_strlit("I hope this helps. ");
    reveal_strlit("Let me know if you have any questions! ");
    reveal_strlit("Let me know if you have any questions. ");
    reveal_strlit("As an AI language model, ");
    reveal_strlit("Thanks for asking! ");
    let a = phrase(i);
    let b = phrase(j);
    if a.len() == b.len() {
        if a[0] == b[0] {
            assert(a[a.len() - 2] != b[b.len() - 2]);
        } else {
            assert(a[0] != b[0]);
        }
    }
}

} // verus!
