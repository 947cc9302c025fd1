//! URL-shortening stage (reversible via the map's URL list).
//!
//! http(s) URLs longer than 24 characters become `⟦Un⟧`; identical URLs share one
//! index. Expansion substitutes them back from the list.

use vstd::prelude::*;
use crate::error::TcError;
use crate::escape::{close_bracket, no_marker_pair, open_bracket};
use crate::text::{
    chars_eq, chars_of, chars_to_strings, decimal, decimal_exec, extend_chars, find_exec,
    find_from, lemma_find_from_bounds, lemma_find_from_first, lemma_find_from_none,
    lemma_parse_decimal, matches_at, occurs_at, parse_usize, parse_usize_exec, string_of,
    strings_to_chars, text_with_number, view_lines, str_slice_to_chars, strs_view,
};

verus! {

/// URLs of at most this many bytes are left as they are.
pub const MIN_URL_LEN: usize = 24;

/// The schemes a URL may start with.
pub open spec fn https_seq() -> Seq<char> {
    seq!['h', 't', 't', 'p', 's', ':', '/', '/']
}

pub open spec fn http_seq() -> Seq<char> {
    seq!['h', 't', 't', 'p', ':', '/', '/']
}

/// `⟦U`, the start of a URL marker.
pub open spec fn url_marker_open() -> Seq<char> {
    seq![open_bracket(), 'U']
}

/// The marker `⟦Uid⟧`.
pub open spec fn url_marker(id: nat) -> Seq<char> {
    url_marker_open() + decimal(id) + seq![close_bracket()]
}

/// The index of a URL marker: `⟦U` + ASCII digits + `⟧`, at least one digit,
/// value fitting in `usize`.
pub open spec fn parse_url_marker(frag: Seq<char>) -> Option<usize> {
    if frag.len() >= 3 && frag.take(2) == url_marker_open() && frag.last() == close_bracket() {
        parse_usize(frag.subrange(2, frag.len() - 1))
    } else {
        None
    }
}

/// A character that ends a URL.
pub open spec fn url_stop(c: char) -> bool {
    c == ' ' || c == '\t' || c == '\r' || c == '\n'
}

/// The end of the URL that starts at `i`: the first stop character, or the end.
pub open spec fn url_end(s: Seq<char>, i: int) -> int
    decreases s.len() - i,
{
    if i < 0 || i >= s.len() || url_stop(s[i]) {
        i
    } else {
        url_end(s, i + 1)
    }
}

/// A URL may start at `i`: at the start of the segment, or after whitespace,
/// a quote, `(`, `<` or `[`.
pub open spec fn url_boundary(s: Seq<char>, i: int) -> bool {
    i == 0 || {
        let c = s[i - 1];
        c == ' ' || c == '\t' || c == '\r' || c == '"' || c == '\'' || c == '(' || c == '<' || c
            == '['
    }
}

/// The length of the scheme that starts at `i`, 0 if none.
pub open spec fn scheme_len(s: Seq<char>, i: int) -> int {
    if occurs_at(s, i, https_seq()) {
        8
    } else if occurs_at(s, i, http_seq()) {
        7
    } else {
        0
    }
}

/// The first index of `x` in `list`.
pub open spec fn first_index(list: Seq<Seq<char>>, x: Seq<char>) -> Option<int>
    decreases list.len(),
{
    if list.len() == 0 {
        None
    } else if list[0] == x {
        Some(0)
    } else {
        match first_index(list.skip(1), x) {
            Some(k) => Some(k + 1),
            None => None,
        }
    }
}

/// The index `url` gets, and the list after it got one.
pub open spec fn url_id(urls: Seq<Seq<char>>, url: Seq<char>) -> (int, Seq<Seq<char>>) {
    match first_index(urls, url) {
        Some(k) => (k, urls),
        None => (urls.len() as int, urls.push(url)),
    }
}

/// The rest of segment `s` from index `i`, with long URLs replaced by
/// markers, and the URL list after it.
pub open spec fn urls_line(s: Seq<char>, i: int, urls: Seq<Seq<char>>) -> (Seq<char>, Seq<Seq<char>>)
    decreases s.len() - i,
{
    if i < 0 || i >= s.len() {
        (Seq::empty(), urls)
    } else if scheme_len(s, i) > 0 {
        let j = url_end(s, i);
        proof {
            lemma_url_end(s, i);
        }
        if url_boundary(s, i) && s.subrange(i, j).len() > 24 {
            let url = s.subrange(i, j);
            let (id, urls1) = url_id(urls, url);
            let (o, u) = urls_line(s, j, urls1);
            (url_marker(id as nat) + o, u)
        } else {
            let (o, u) = urls_line(s, j, urls);
            (s.subrange(i, j) + o, u)
        }
    } else {
        let (o, u) = urls_line(s, i + 1, urls);
        (seq![s[i]] + o, u)
    }
}

/// Every segment through [`urls_line`], threading the URL list.
pub open spec fn urls_segs(segs: Seq<Seq<char>>, urls: Seq<Seq<char>>) -> (Seq<Seq<char>>, Seq<Seq<char>>)
    decreases segs.len(),
{
    if segs.len() == 0 {
        (Seq::empty(), urls)
    } else {
        let (o, u) = urls_line(segs[0], 0, urls);
        let (os, u2) = urls_segs(segs.skip(1), u);
        (seq![o] + os, u2)
    }
}

/// A URL ends after its start, within the segment, at a stop character or
/// the end.
pub proof fn lemma_url_end(s: Seq<char>, i: int)
    ensures
        0 <= i < s.len() && !url_stop(s[i]) ==> i < url_end(s, i),
        0 <= i <= s.len() ==> i <= url_end(s, i) <= s.len(),
        0 <= i <= s.len() ==> forall|k: int| i <= k < url_end(s, i) ==> !url_stop(#[trigger] s[k]),
        0 <= i <= s.len() ==> (url_end(s, i) == s.len() || url_stop(s[url_end(s, i)])),
    decreases s.len() - i,
{
    if 0 <= i < s.len() && !url_stop(s[i]) {
        lemma_url_end(s, i + 1);
    }
}

proof fn lemma_url_end_is(s: Seq<char>, i: int, j: int)
    requires
        0 <= i <= j <= s.len(),
        forall|k: int| i <= k < j ==> !url_stop(#[trigger] s[k]),
        j == s.len() || url_stop(s[j]),
    ensures
        url_end(s, i) == j,
    decreases j - i,
{
    if i < j {
        lemma_url_end_is(s, i + 1, j);
    }
}

/// The first index found holds `x`; none found means `x` is not listed.
pub proof fn lemma_first_index(list: Seq<Seq<char>>, x: Seq<char>)
    ensures
        first_index(list, x) matches Some(k) ==> 0 <= k < list.len() && list[k] == x,
        first_index(list, x) is None ==> forall|k: int| 0 <= k < list.len() ==> list[k] != x,
    decreases list.len(),
{
    if list.len() > 0 && list[0] != x {
        lemma_first_index(list.skip(1), x);
        if first_index(list, x) is None {
            assert forall|k: int| 0 <= k < list.len() implies list[k] != x by {
                if k > 0 {
                    assert(list[k] == list.skip(1)[k - 1]);
                }
            }
        }
    }
}

// ---------------------------------------------------------------------------
// Compression
// ---------------------------------------------------------------------------

/// The marker `⟦Uid⟧`.
pub fn marker(id: usize) -> (r: String)
    ensures
        r@ == url_marker(id as nat),
{
    let v = marker_chars(id);
    string_of(v.as_slice())
}

fn marker_chars(id: usize) -> (r: Vec<char>)
    ensures
        r@ == url_marker(id as nat),
{
    let mut r: Vec<char> = vec!['\u{27E6}', 'U'];
    let d = decimal_exec(id);
    extend_chars(&mut r, d.as_slice());
    r.push('\u{27E7}');
    assert(r@ =~= url_marker(id as nat));
    r
}

/// The index of `seg_fragment` if it is a URL marker.
pub fn parse_marker(seg_fragment: &str) -> (r: Option<usize>)
    ensures
        r == parse_url_marker(seg_fragment@),
{
    let v = chars_of(seg_fragment);
    parse_marker_chars(v.as_slice())
}

fn parse_marker_chars(v: &[char]) -> (r: Option<usize>)
    ensures
        r == parse_url_marker(v@),
{
    let n = v.len();
    if n < 3 {
        return None;
    }
    let ok = v[0] == '\u{27E6}' && v[1] == 'U' && v[n - 1] == '\u{27E7}';
    assert(ok == (v@.take(2) == url_marker_open() && v@.last() == close_bracket())) by {
        if v@.take(2) == url_marker_open() {
            assert(v@.take(2)[0] == v@[0] && v@.take(2)[1] == v@[1]);
        }
        if ok {
            assert(v@.take(2) =~= url_marker_open());
        }
    }
    if !ok {
        return None;
    }
    let mut digits: Vec<char> = Vec::new();
    let mut i: usize = 2;
    while i < n - 1
        invariant
            n == v@.len(),
            n >= 3,
            2 <= i <= n - 1,
            digits@ == v@.subrange(2, i as int),
        decreases n - 1 - i,
    {
        digits.push(v[i]);
        i += 1;
        assert(digits@ =~= v@.subrange(2, i as int));
    }
    parse_usize_exec(digits.as_slice())
}

fn url_end_exec(s: &[char], start: usize) -> (j: usize)
    requires
        start <= s@.len(),
    ensures
        j == url_end(s@, start as int),
{
    let mut j: usize = start;
    while j < s.len() && !(s[j] == ' ' || s[j] == '\t' || s[j] == '\r' || s[j] == '\n')
        invariant
            start <= j <= s@.len(),
            forall|k: int| start <= k < j ==> !url_stop(#[trigger] s@[k]),
        decreases s@.len() - j,
    {
        j += 1;
    }
    proof {
        lemma_url_end_is(s@, start as int, j as int);
    }
    j
}

fn first_index_exec(urls: &Vec<Vec<char>>, url: &[char]) -> (r: Option<usize>)
    ensures
        r matches Some(k) ==> first_index(view_lines(urls@), url@) == Some(k as int),
        r is None ==> first_index(view_lines(urls@), url@) is None,
{
    let ghost l = view_lines(urls@);
    let mut k: usize = 0;
    assert(l.skip(0) =~= l);
    while k < urls.len()
        invariant
            l == view_lines(urls@),
            k <= urls@.len(),
            first_index(l, url@) == match first_index(l.skip(k as int), url@) {
                Some(q) => Some(q + k),
                None => None::<int>,
            },
        decreases urls@.len() - k,
    {
        let ghost rest = l.skip(k as int);
        assert(rest[0] == urls@[k as int]@);
        if chars_eq(urls[k].as_slice(), url) {
            return Some(k);
        }
        k += 1;
        assert(rest.skip(1) =~= l.skip(k as int));
    }
    assert(l.skip(k as int) =~= Seq::<Seq<char>>::empty());
    None
}

/// Replaces long URLs by markers in every segment, appending new URLs to
/// `urls`.
pub fn compress(segs: Vec<String>, urls: &mut Vec<String>) -> (r: Vec<String>)
    ensures
        (r.deep_view(), final(urls).deep_view()) == urls_segs(segs.deep_view(), old(urls).deep_view()),
{
    let v = strings_to_chars(&segs);
    let mut u = strings_to_chars(urls);
    let out = compress_lines(&v, &mut u);
    *urls = chars_to_strings(&u);
    chars_to_strings(&out)
}

/// [`compress`] on character vectors.
pub fn compress_lines(segs: &Vec<Vec<char>>, urls: &mut Vec<Vec<char>>) -> (r: Vec<Vec<char>>)
    ensures
        (view_lines(r@), view_lines(final(urls)@)) == urls_segs(view_lines(segs@), view_lines(old(urls)@)),
{
    let ghost s = view_lines(segs@);
    let ghost u0 = view_lines(urls@);
    let mut out: Vec<Vec<char>> = Vec::new();
    let mut i: usize = 0;
    assert(s.skip(0) =~= s);
    assert(view_lines(out@) + urls_segs(s, u0).0 =~= urls_segs(s, u0).0);
    while i < segs.len()
        invariant
            s == view_lines(segs@),
            i <= segs@.len(),
            view_lines(out@) + urls_segs(s.skip(i as int), view_lines(urls@)).0 == urls_segs(s, u0).0,
            urls_segs(s.skip(i as int), view_lines(urls@)).1 == urls_segs(s, u0).1,
        decreases segs@.len() - i,
    {
        let ghost rest = s.skip(i as int);
        let ghost o0 = view_lines(out@);
        let ghost uc = view_lines(urls@);
        assert(rest[0] == s[i as int]);
        let o = compress_one(segs[i].as_slice(), urls);
        out.push(o);
        i += 1;
        proof {
            assert(rest.skip(1) =~= s.skip(i as int));
            assert(view_lines(out@) =~= o0.push(urls_line(rest[0], 0, uc).0));
            assert(view_lines(out@) + urls_segs(s.skip(i as int), view_lines(urls@)).0
                =~= o0 + urls_segs(rest, uc).0);
        }
    }
    assert(s.skip(i as int) =~= Seq::<Seq<char>>::empty());
    assert(view_lines(out@) + Seq::<Seq<char>>::empty() =~= view_lines(out@));
    out
}

/// One segment.
fn compress_one(seg: &[char], urls: &mut Vec<Vec<char>>) -> (r: Vec<char>)
    ensures
        (r@, view_lines(final(urls)@)) == urls_line(seg@, 0, view_lines(old(urls)@)),
{
    let ghost u0 = view_lines(urls@);
    let https: Vec<char> = vec!['h', 't', 't', 'p', 's', ':', '/', '/'];
    let http: Vec<char> = vec!['h', 't', 't', 'p', ':', '/', '/'];
    assert(https@ =~= https_seq());
    assert(http@ =~= http_seq());
    let mut out: Vec<char> = Vec::new();
    let mut i: usize = 0;
    assert(out@ + urls_line(seg@, 0, u0).0 =~= urls_line(seg@, 0, u0).0);
    while i < seg.len()
        invariant
            https@ == https_seq(),
            http@ == http_seq(),
            i <= seg@.len(),
            out@ + urls_line(seg@, i as int, view_lines(urls@)).0 == urls_line(seg@, 0, u0).0,
            urls_line(seg@, i as int, view_lines(urls@)).1 == urls_line(seg@, 0, u0).1,
        decreases seg@.len() - i,
    {
        let ghost o0 = out@;
        let ghost uc = view_lines(urls@);
        let ghost i0 = i as int;
        let scheme: usize = if matches_at(seg, i, https.as_slice()) {
            8
        } else if matches_at(seg, i, http.as_slice()) {
            7
        } else {
            0
        };
        if scheme > 0 {
            let boundary_ok = i == 0 || {
                let c = seg[i - 1];
                c == ' ' || c == '\t' || c == '\r' || c == '"' || c == '\'' || c == '(' || c == '<'
                    || c == '['
            };
            proof {
                lemma_url_end(seg@, i as int);
                assert(seg@[i as int] == 'h') by {
                    if scheme == 8 {
                        assert(seg@.subrange(i as int, i + 8)[0] == seg@[i as int]);
                    } else {
                        assert(seg@.subrange(i as int, i + 7)[0] == seg@[i as int]);
                    }
                }
            }
            let j = url_end_exec(seg, i);
            if boundary_ok && j - i > MIN_URL_LEN {
                let mut url: Vec<char> = Vec::new();
                let mut k: usize = i;
                while k < j
                    invariant
                        i <= k <= j <= seg@.len(),
                        url@ == seg@.subrange(i as int, k as int),
                    decreases j - k,
                {
                    url.push(seg[k]);
                    k += 1;
                    assert(url@ =~= seg@.subrange(i as int, k as int));
                }
                let ghost uv = url@;
                proof {
                    lemma_first_index(uc, uv);
                }
                let id = match first_index_exec(urls, url.as_slice()) {
                    Some(k) => {
                        assert(first_index(uc, uv) == Some(k as int));
                        assert(view_lines(urls@) == uc);
                        assert(url_id(uc, uv) == (k as int, view_lines(urls@)));
                        k
                    },
                    None => {
                        let n = urls.len();
                        assert(first_index(uc, uv) is None);
                        urls.push(url);
                        assert(view_lines(urls@) =~= uc.push(uv));
                        assert(n as int == uc.len());
                        assert(url_id(uc, uv) == (n as int, view_lines(urls@)));
                        n
                    },
                };
                assert(uv == seg@.subrange(i0, j as int));
                assert(url_id(uc, uv) == (id as int, view_lines(urls@)));
                assert(scheme_len(seg@, i0) > 0);
                assert(url_boundary(seg@, i0));
                assert(urls_line(seg@, i0, uc).0 == url_marker(id as nat) + urls_line(seg@, j as int, view_lines(urls@)).0);
                assert(urls_line(seg@, i0, uc).1 == urls_line(seg@, j as int, view_lines(urls@)).1);
                let m = marker_chars(id);
                extend_chars(&mut out, m.as_slice());
            } else {
                let mut k: usize = i;
                while k < j
                    invariant
                        i <= k <= j <= seg@.len(),
                        out@ == o0 + seg@.subrange(i as int, k as int),
                    decreases j - k,
                {
                    out.push(seg[k]);
                    k += 1;
                    assert(out@ =~= o0 + seg@.subrange(i as int, k as int));
                }
                assert(scheme_len(seg@, i0) > 0);
                assert(urls_line(seg@, i0, uc).0 == seg@.subrange(i0, j as int) + urls_line(seg@, j as int, uc).0);
            }
            i = j;
            assert(out@ + urls_line(seg@, i as int, view_lines(urls@)).0 =~= o0 + urls_line(seg@, i0, uc).0);
        } else {
            out.push(seg[i]);
            i += 1;
            assert(out@ + urls_line(seg@, i as int, view_lines(urls@)).0 =~= o0 + urls_line(seg@, i - 1, uc).0);
        }
    }
    assert(out@ + Seq::<char>::empty() =~= out@);
    out
}

// ---------------------------------------------------------------------------
// Expansion
// ---------------------------------------------------------------------------

/// Error message for a URL marker without its `⟧`.
pub open spec fn unterminated_url_msg() -> Seq<char> {
    "corrupt map: unterminated URL marker"@
}

/// Error message for a URL id outside the list.
pub open spec fn url_id_msg(id: nat) -> Seq<char> {
    "corrupt map: URL id "@ + decimal(id) + " not in map"@
}

/// `p` in front of a successful expansion.
pub open spec fn prepend(p: Seq<char>, r: Result<Seq<char>, Seq<char>>) -> Result<Seq<char>, Seq<char>> {
    match r {
        Ok(x) => Ok(p + x),
        Err(e) => Err(e),
    }
}

/// Expansion of the text `rest`: `Ok` with the URL markers replaced, or `Err`
/// with the message of the first failing marker. A `⟦U` whose text up to the
/// next `⟧` is not a well-formed marker is kept literally, and the search
/// goes on after its `⟦`.
pub open spec fn url_expand_rest(rest: Seq<char>, urls: Seq<Seq<char>>) -> Result<Seq<char>, Seq<char>>
    decreases rest.len(),
{
    match find_from(rest, url_marker_open(), 0) {
        None => Ok(rest),
        Some(pos) => {
            proof {
                lemma_find_from_bounds(rest, url_marker_open(), 0);
            }
            let tail = rest.skip(pos);
            match find_from(tail, seq![close_bracket()], 0) {
                None => Err(unterminated_url_msg()),
                Some(end) => {
                    proof {
                        lemma_find_from_bounds(tail, seq![close_bracket()], 0);
                    }
                    match parse_url_marker(tail.take(end + 1)) {
                        Some(id) => if (id as int) < urls.len() {
                            prepend(
                                rest.take(pos) + urls[id as int],
                                url_expand_rest(tail.skip(end + 1), urls),
                            )
                        } else {
                            Err(url_id_msg(id as nat))
                        },
                        None => prepend(
                            rest.take(pos) + seq![open_bracket()],
                            url_expand_rest(tail.skip(1), urls),
                        ),
                    }
                },
            }
        },
    }
}

/// Every segment through [`url_expand_rest`], stopping at the first failure.
pub open spec fn url_expand_segs(segs: Seq<Seq<char>>, urls: Seq<Seq<char>>) -> Result<Seq<Seq<char>>, Seq<char>>
    decreases segs.len(),
{
    if segs.len() == 0 {
        Ok(Seq::empty())
    } else {
        match url_expand_rest(segs[0], urls) {
            Ok(x) => match url_expand_segs(segs.skip(1), urls) {
                Ok(xs) => Ok(seq![x] + xs),
                Err(e) => Err(e),
            },
            Err(e) => Err(e),
        }
    }
}

/// Replaces URL markers by the URLs of `urls`, in every segment.
pub fn expand(segs: Vec<String>, urls: &[String]) -> (r: Result<Vec<String>, TcError>)
    ensures
        match url_expand_segs(segs.deep_view(), strs_view(urls@)) {
            Ok(v) => r is Ok && r->Ok_0.deep_view() == v,
            Err(m) => r is Err && r->Err_0.msg@ == m,
        },
{
    let v = strings_to_chars(&segs);
    let u = str_slice_to_chars(urls);
    match expand_lines(&v, &u) {
        Ok(out) => Ok(chars_to_strings(&out)),
        Err(e) => Err(e),
    }
}

/// [`expand`] on character vectors.
pub fn expand_lines(segs: &Vec<Vec<char>>, urls: &Vec<Vec<char>>) -> (r: Result<Vec<Vec<char>>, TcError>)
    ensures
        match url_expand_segs(view_lines(segs@), view_lines(urls@)) {
            Ok(v) => r matches Ok(x) && view_lines(x@) == v,
            Err(m) => r matches Err(e) && e.msg@ == m,
        },
{
    let ghost s = view_lines(segs@);
    let ghost u = view_lines(urls@);
    let mut out: Vec<Vec<char>> = Vec::new();
    let mut i: usize = 0;
    assert(s.skip(0) =~= s);
    assert(Seq::<Seq<char>>::empty() + s =~= s);
    while i < segs.len()
        invariant
            s == view_lines(segs@),
            u == view_lines(urls@),
            i <= segs@.len(),
            url_expand_segs(s, u) == match url_expand_segs(s.skip(i as int), u) {
                Ok(xs) => Ok(view_lines(out@) + xs),
                Err(e) => Err(e),
            },
        decreases segs@.len() - i,
    {
        let ghost rest = s.skip(i as int);
        let ghost o0 = view_lines(out@);
        assert(rest[0] == s[i as int]);
        assert(rest.skip(1) =~= s.skip(i + 1));
        match expand_one(segs[i].as_slice(), urls) {
            Err(e) => {
                return Err(e);
            },
            Ok(x) => {
                let ghost xv = x@;
                out.push(x);
                i += 1;
                proof {
                    assert(view_lines(out@) =~= o0.push(xv));
                    match url_expand_segs(s.skip(i as int), u) {
                        Ok(xs) => {
                            assert(o0.push(xv) + xs =~= o0 + (seq![xv] + xs));
                        },
                        _ => {},
                    }
                }
            },
        }
    }
    assert(s.skip(i as int) =~= Seq::<Seq<char>>::empty());
    assert(view_lines(out@) + Seq::<Seq<char>>::empty() =~= view_lines(out@));
    Ok(out)
}

/// One segment.
#[verifier::rlimit(60)]
fn expand_one(seg: &[char], urls: &Vec<Vec<char>>) -> (r: Result<Vec<char>, TcError>)
    ensures
        match url_expand_rest(seg@, view_lines(urls@)) {
            Ok(x) => r matches Ok(v) && v@ == x,
            Err(m) => r matches Err(e) && e.msg@ == m,
        },
{
    let ghost u = view_lines(urls@);
    let open_u: Vec<char> = vec!['\u{27E6}', 'U'];
    let close: Vec<char> = vec!['\u{27E7}'];
    assert(open_u@ =~= url_marker_open());
    assert(close@ =~= seq![close_bracket()]);
    let mut out: Vec<char> = Vec::new();
    let mut start: usize = 0;
    assert(seg@.skip(0) =~= seg@);
    assert(Seq::<char>::empty() + seg@ =~= seg@);
    loop
        invariant
            u == view_lines(urls@),
            open_u@ == url_marker_open(),
            close@ == seq![close_bracket()],
            start <= seg@.len(),
            url_expand_rest(seg@, u) == prepend(out@, url_expand_rest(seg@.skip(start as int), u)),
        decreases seg@.len() - start,
    {
        let rest = vstd::slice::slice_subrange(seg, start, seg.len());
        assert(rest@ =~= seg@.skip(start as int));
        let ghost o0 = out@;
        proof {
            lemma_find_from_bounds(rest@, url_marker_open(), 0);
        }
        match find_exec(rest, open_u.as_slice(), 0) {
            None => {
                extend_chars(&mut out, rest);
                return Ok(out);
            },
            Some(pos) => {
                let abs = start + pos;
                let tail = vstd::slice::slice_subrange(seg, abs, seg.len());
                assert(tail@ =~= rest@.skip(pos as int));
                proof {
                    lemma_find_from_bounds(tail@, seq![close_bracket()], 0);
                }
                let head = vstd::slice::slice_subrange(rest, 0, pos);
                assert(head@ =~= rest@.take(pos as int));
                match find_exec(tail, close.as_slice(), 0) {
                    None => {
                        let e = TcError::new(text_of_unterminated());
                        return Err(e);
                    },
                    Some(end) => {
                        let frag = vstd::slice::slice_subrange(tail, 0, end + 1);
                        assert(frag@ =~= tail@.take(end + 1));
                        match parse_marker_chars(frag) {
                            Some(id) => {
                                if id < urls.len() {
                                    extend_chars(&mut out, head);
                                    extend_chars(&mut out, urls[id].as_slice());
                                    start = abs + end + 1;
                                    assert(tail@.skip(end + 1) =~= seg@.skip(start as int));
                                    assert(out@ =~= o0 + (rest@.take(pos as int) + u[id as int]));
                                    proof {
                                        match url_expand_rest(seg@.skip(start as int), u) {
                                            Ok(x) => {
                                                assert(o0 + (rest@.take(pos as int) + u[id as int] + x) =~= out@ + x);
                                            },
                                            _ => {},
                                        }
                                    }
                                } else {
                                    let e = TcError::new(text_with_number("corrupt map: URL id ", id, " not in map"));
                                    return Err(e);
                                }
                            },
                            None => {
                                extend_chars(&mut out, head);
                                out.push('\u{27E6}');
                                start = abs + 1;
                                assert(tail@.skip(1) =~= seg@.skip(start as int));
                                assert(out@ =~= o0 + (rest@.take(pos as int) + seq![open_bracket()]));
                                proof {
                                    match url_expand_rest(seg@.skip(start as int), u) {
                                        Ok(x) => {
                                            assert(o0 + (rest@.take(pos as int) + seq![open_bracket()] + x) =~= out@ + x);
                                        },
                                        _ => {},
                                    }
                                }
                            },
                        }
                    },
                }
            },
        }
    }
}

fn text_of_unterminated() -> (r: String)
    ensures
        r@ == unterminated_url_msg(),
{
    let v = chars_of("corrupt map: unterminated URL marker");
    string_of(v.as_slice())
}

// ---------------------------------------------------------------------------
// Round trip
// ---------------------------------------------------------------------------

/// `w` starts with `u`.
pub open spec fn extends(w: Seq<Seq<char>>, u: Seq<Seq<char>>) -> bool {
    u.len() <= w.len() && w.take(u.len() as int) == u
}

proof fn lemma_extends_trans(a: Seq<Seq<char>>, b: Seq<Seq<char>>, c: Seq<Seq<char>>)
    requires
        extends(a, b),
        extends(b, c),
    ensures
        extends(a, c),
{
    assert(a.take(c.len() as int) =~= b.take(c.len() as int));
}

proof fn lemma_urls_line_extends(s: Seq<char>, i: int, u: Seq<Seq<char>>)
    ensures
        extends(urls_line(s, i, u).1, u),
    decreases s.len() - i,
{
    if i < 0 || i >= s.len() {
        assert(u.take(u.len() as int) =~= u);
    } else if scheme_len(s, i) > 0 {
        lemma_url_end(s, i);
        let j = url_end(s, i);
        if url_boundary(s, i) && s.subrange(i, j).len() > 24 {
            let (id, u1) = url_id(u, s.subrange(i, j));
            lemma_urls_line_extends(s, j, u1);
            assert(u1.take(u.len() as int) =~= u);
            lemma_extends_trans(urls_line(s, j, u1).1, u1, u);
        } else {
            lemma_urls_line_extends(s, j, u);
        }
    } else {
        lemma_urls_line_extends(s, i + 1, u);
    }
}

proof fn lemma_urls_segs_extends(segs: Seq<Seq<char>>, u: Seq<Seq<char>>)
    ensures
        extends(urls_segs(segs, u).1, u),
    decreases segs.len(),
{
    if segs.len() == 0 {
        assert(u.take(u.len() as int) =~= u);
    } else {
        let u1 = urls_line(segs[0], 0, u).1;
        lemma_urls_line_extends(segs[0], 0, u);
        lemma_urls_segs_extends(segs.skip(1), u1);
        lemma_extends_trans(urls_segs(segs.skip(1), u1).1, u1, u);
    }
}

proof fn lemma_no_pair_split(a: Seq<char>, b: Seq<char>)
    requires
        no_marker_pair(a + b, 'U'),
    ensures
        no_marker_pair(a, 'U'),
        no_marker_pair(b, 'U'),
{
    let x = a + b;
    assert forall|q: int| 0 <= q && q + 1 < a.len() implies !(#[trigger] a[q] == open_bracket() && a[q + 1] == 'U') by {
        assert(x[q] == a[q] && x[q + 1] == a[q + 1]);
    }
    assert forall|q: int| 0 <= q && q + 1 < b.len() implies !(#[trigger] b[q] == open_bracket() && b[q + 1] == 'U') by {
        assert(x[a.len() + q] == b[q] && x[a.len() + q + 1] == b[q + 1]);
    }
}

/// Text without `⟦U` expands to itself.
proof fn lemma_expand_plain(p: Seq<char>, w: Seq<Seq<char>>)
    requires
        no_marker_pair(p, 'U'),
    ensures
        url_expand_rest(p, w) == Ok::<Seq<char>, Seq<char>>(p),
{
    assert forall|q: int| 0 <= q implies !occurs_at(p, q, url_marker_open()) by {
        if occurs_at(p, q, url_marker_open()) {
            assert(p.subrange(q, q + 2)[0] == p[q]);
            assert(p.subrange(q, q + 2)[1] == p[q + 1]);
        }
    }
    lemma_find_from_none(p, url_marker_open(), 0);
}

proof fn lemma_parse_url_marker(id: usize)
    ensures
        parse_url_marker(url_marker(id as nat)) == Some(id),
{
    let m = url_marker(id as nat);
    lemma_parse_decimal(id);
    crate::text::lemma_decimal(id as nat);
    assert(m.take(2) =~= url_marker_open());
    assert(m.subrange(2, m.len() - 1) =~= decimal(id as nat));
}

/// A well-formed marker after text without `⟦U` expands to its URL.
proof fn lemma_expand_marker(p: Seq<char>, id: int, q: Seq<char>, w: Seq<Seq<char>>)
    requires
        no_marker_pair(p, 'U'),
        0 <= id < w.len(),
        id <= usize::MAX,
    ensures
        url_expand_rest(p + url_marker(id as nat) + q, w) == prepend(p + w[id], url_expand_rest(q, w)),
{
    let m = url_marker(id as nat);
    let x = p + m + q;
    crate::text::lemma_decimal(id as nat);
    let d = decimal(id as nat);
    // the first `⟦U` is the marker's
    assert(x.subrange(p.len() as int, p.len() as int + 2) =~= url_marker_open());
    assert forall|r: int| 0 <= r < p.len() implies !occurs_at(x, r, url_marker_open()) by {
        if occurs_at(x, r, url_marker_open()) {
            assert(x.subrange(r, r + 2)[0] == x[r]);
            assert(x.subrange(r, r + 2)[1] == x[r + 1]);
            if r + 1 < p.len() {
                assert(x[r] == p[r] && x[r + 1] == p[r + 1]);
            } else {
                assert(x[r + 1] == m[0]);
            }
        }
    }
    lemma_find_from_first(x, url_marker_open(), 0, p.len() as int);
    let tail = x.skip(p.len() as int);
    assert(tail =~= m + q);
    let end = m.len() - 1;
    assert(tail.subrange(end, end + 1) =~= seq![close_bracket()]);
    assert forall|r: int| 0 <= r < end implies !occurs_at(tail, r, seq![close_bracket()]) by {
        if occurs_at(tail, r, seq![close_bracket()]) {
            assert(tail.subrange(r, r + 1)[0] == tail[r]);
            if r >= 2 {
                assert(tail[r] == d[r - 2]);
                assert(crate::text::is_digit(d[r - 2]));
            }
        }
    }
    lemma_find_from_first(tail, seq![close_bracket()], 0, end);
    assert(tail.take(end + 1) =~= m);
    lemma_parse_url_marker(id as usize);
    assert(tail.skip(end + 1) =~= q);
    assert(x.take(p.len() as int) =~= p);
}

/// Expanding the compressed rest of a segment gives it back, when the text
/// holds no `⟦U` and `w` starts with the URL list compression left.
proof fn lemma_urls_line_roundtrip(s: Seq<char>, i: int, u: Seq<Seq<char>>, p: Seq<char>, w: Seq<Seq<char>>)
    requires
        0 <= i <= s.len(),
        no_marker_pair(p + s.skip(i), 'U'),
        extends(w, urls_line(s, i, u).1),
        w.len() <= usize::MAX,
    ensures
        url_expand_rest(p + urls_line(s, i, u).0, w) == Ok::<Seq<char>, Seq<char>>(p + s.skip(i)),
    decreases s.len() - i,
{
    if i >= s.len() {
        assert(p + urls_line(s, i, u).0 =~= p);
        assert(p + s.skip(i) =~= p);
        lemma_expand_plain(p, w);
    } else if scheme_len(s, i) > 0 {
        lemma_url_end(s, i);
        assert(s[i] == 'h') by {
            if occurs_at(s, i, https_seq()) {
                assert(s.subrange(i, i + 8)[0] == s[i]);
            } else {
                assert(s.subrange(i, i + 7)[0] == s[i]);
            }
        }
        let j = url_end(s, i);
        let url = s.subrange(i, j);
        assert(s.skip(i) =~= url + s.skip(j));
        if url_boundary(s, i) && url.len() > 24 {
            let (id, u1) = url_id(u, url);
            let (o, u2) = urls_line(s, j, u1);
            assert(p + urls_line(s, i, u).0 =~= p + url_marker(id as nat) + o);
            lemma_no_pair_split(p, s.skip(i));
            assert(p + s.skip(i) =~= (p + url) + s.skip(j));
            lemma_no_pair_split(p + url, s.skip(j));
            lemma_urls_line_extends(s, j, u1);
            lemma_extends_trans(w, u2, u1);
            lemma_first_index(u, url);
            assert(w[id] == u1[id]) by {
                assert(w.take(u1.len() as int)[id] == w[id]);
            }
            assert(u1[id] == url);
            lemma_expand_marker(p, id, o, w);
            assert(Seq::<char>::empty() + o =~= o);
            assert(Seq::<char>::empty() + s.skip(j) =~= s.skip(j));
            lemma_urls_line_roundtrip(s, j, u1, Seq::<char>::empty(), w);
            assert(p + w[id] + s.skip(j) =~= p + s.skip(i));
        } else {
            let (o, u2) = urls_line(s, j, u);
            assert(p + urls_line(s, i, u).0 =~= (p + url) + o);
            assert((p + url) + s.skip(j) =~= p + s.skip(i));
            lemma_urls_line_roundtrip(s, j, u, p + url, w);
        }
    } else {
        let (o, u2) = urls_line(s, i + 1, u);
        let p2 = p.push(s[i]);
        assert(p + urls_line(s, i, u).0 =~= p2 + o);
        assert(p2 + s.skip(i + 1) =~= p + s.skip(i));
        lemma_urls_line_roundtrip(s, i + 1, u, p2, w);
    }
}

proof fn lemma_urls_segs_roundtrip(segs: Seq<Seq<char>>, u: Seq<Seq<char>>, w: Seq<Seq<char>>)
    requires
        forall|k: int| 0 <= k < segs.len() ==> no_marker_pair(#[trigger] segs[k], 'U'),
        extends(w, urls_segs(segs, u).1),
        w.len() <= usize::MAX,
    ensures
        url_expand_segs(urls_segs(segs, u).0, w) == Ok::<Seq<Seq<char>>, Seq<char>>(segs),
    decreases segs.len(),
{
    if segs.len() == 0 {
        assert(segs =~= Seq::<Seq<char>>::empty());
    } else {
        let (o, u1) = urls_line(segs[0], 0, u);
        let rest = segs.skip(1);
        assert forall|k: int| 0 <= k < rest.len() implies no_marker_pair(#[trigger] rest[k], 'U') by {
            assert(rest[k] == segs[k + 1]);
        }
        lemma_urls_segs_extends(rest, u1);
        lemma_extends_trans(w, urls_segs(rest, u1).1, u1);
        assert(Seq::<char>::empty() + segs[0].skip(0) =~= segs[0]);
        assert(Seq::<char>::empty() + o =~= o);
        lemma_urls_line_roundtrip(segs[0], 0, u, Seq::<char>::empty(), w);
        lemma_urls_segs_roundtrip(rest, u1, w);
        let outs = urls_segs(segs, u).0;
        assert(outs[0] == o);
        assert(outs.skip(1) =~= urls_segs(rest, u1).0);
        assert(seq![segs[0]] + rest =~= segs);
    }
}

/// Expanding what URL shortening produced, with the URL list it left, gives
/// the segments back, when no segment holds `⟦U` (escaped text never does).
pub proof fn lemma_urls_roundtrip(segs: Seq<Seq<char>>, u: Seq<Seq<char>>)
    requires
        forall|k: int| 0 <= k < segs.len() ==> no_marker_pair(#[trigger] segs[k], 'U'),
        urls_segs(segs, u).1.len() <= usize::MAX,
    ensures
        url_expand_segs(urls_segs(segs, u).0, urls_segs(segs, u).1)
            == Ok::<Seq<Seq<char>>, Seq<char>>(segs),
{
    let w = urls_segs(segs, u).1;
    assert(w.take(w.len() as int) =~= w);
    lemma_urls_segs_roundtrip(segs, u, w);
}

/// No URL occurs twice in the list.
pub open spec fn distinct(list: Seq<Seq<char>>) -> bool {
    forall|a: int, b: int| 0 <= a < b < list.len() ==> #[trigger] list[a] != #[trigger] list[b]
}

/// A URL gets the index it already has, or a new one at the end.
proof fn lemma_url_id_distinct(u: Seq<Seq<char>>, url: Seq<char>)
    requires
        distinct(u),
    ensures
        distinct(url_id(u, url).1),
        0 <= url_id(u, url).0 < url_id(u, url).1.len(),
        url_id(u, url).1[url_id(u, url).0] == url,
{
    lemma_first_index(u, url);
    if first_index(u, url) is None {
        let w = u.push(url);
        assert forall|a: int, b: int| 0 <= a < b < w.len() implies #[trigger] w[a] != #[trigger] w[b] by {
            if b == u.len() {
                assert(w[a] == u[a]);
            } else {
                assert(w[a] == u[a] && w[b] == u[b]);
            }
        }
    }
}

proof fn lemma_urls_line_distinct(s: Seq<char>, i: int, u: Seq<Seq<char>>)
    requires
        distinct(u),
    ensures
        distinct(urls_line(s, i, u).1),
    decreases s.len() - i,
{
    if 0 <= i < s.len() {
        if scheme_len(s, i) > 0 {
            lemma_url_end(s, i);
            let j = url_end(s, i);
            if url_boundary(s, i) && s.subrange(i, j).len() > 24 {
                lemma_url_id_distinct(u, s.subrange(i, j));
                lemma_urls_line_distinct(s, j, url_id(u, s.subrange(i, j)).1);
            } else {
                lemma_urls_line_distinct(s, j, u);
            }
        } else {
            lemma_urls_line_distinct(s, i + 1, u);
        }
    }
}

/// Identical URLs share one id: starting from a list without repeats,
/// compression never adds a URL the list already holds.
pub proof fn lemma_urls_distinct(segs: Seq<Seq<char>>, u: Seq<Seq<char>>)
    requires
        distinct(u),
    ensures
        distinct(urls_segs(segs, u).1),
    decreases segs.len(),
{
    if segs.len() > 0 {
        lemma_urls_line_distinct(segs[0], 0, u);
        lemma_urls_distinct(segs.skip(1), urls_line(segs[0], 0, u).1);
    }
}

/// The character may stand right before a URL that gets shortened.
pub open spec fn url_opener(c: char) -> bool {
    c == ' ' || c == '\t' || c == '\r' || c == '"' || c == '\'' || c == '(' || c == '<' || c == '['
}

/// Where the scan meets an `http://` or `https://` URL, it replaces the URL
/// (up to the next space, tab, `\r` or line feed) by a marker and lists it
/// exactly when the URL is longer than 24 characters and starts the segment
/// or follows a space, tab, `\r`, `"`, `'`, `(`, `<` or `[`; otherwise the
/// URL is kept as it is.
pub proof fn lemma_urls_line_replaces(s: Seq<char>, i: int, u: Seq<Seq<char>>)
    requires
        0 <= i < s.len(),
        occurs_at(s, i, https_seq()) || occurs_at(s, i, http_seq()),
    ensures
        ({
            let j = url_end(s, i);
            let url = s.subrange(i, j);
            let out = urls_line(s, i, u);
            if (i == 0 || url_opener(s[i - 1])) && j - i > 24 {
                &&& out.0.len() >= 2
                &&& out.0[0] == open_bracket()
                &&& out.0[1] == 'U'
                &&& out.1.contains(url)
            } else {
                &&& out.0.len() >= url.len()
                &&& out.0.take(url.len() as int) == url
            }
        }),
{
    lemma_url_end(s, i);
    let j = url_end(s, i);
    let url = s.subrange(i, j);
    assert(scheme_len(s, i) > 0);
    if url_boundary(s, i) && url.len() > 24 {
        let (id, u1) = url_id(u, url);
        lemma_first_index(u, url);
        let (o, u2) = urls_line(s, j, u1);
        crate::text::lemma_decimal(id as nat);
        let m = url_marker(id as nat);
        assert(urls_line(s, i, u).0 == m + o);
        assert(m[0] == open_bracket() && m[1] == 'U');
        lemma_urls_line_extends(s, j, u1);
        if first_index(u, url) is None {
            assert(u1[u.len() as int] == url);
        }
        assert(u1[id] == url);
        assert(u2.take(u1.len() as int)[id] == u2[id]);
        assert(u2.contains(url));
    } else {
        let o = urls_line(s, j, u).0;
        assert(urls_line(s, i, u).0 == url + o);
        assert((url + o).take(url.len() as int) =~= url);
    }
}

/// A URL runs from its start up to the first space, tab, `\r` or line feed,
/// or to the end of the segment.
pub proof fn lemma_url_extent(s: Seq<char>, i: int)
    requires
        0 <= i <= s.len(),
    ensures
        i <= url_end(s, i) <= s.len(),
        forall|k: int|
            i <= k < url_end(s, i) ==> #[trigger] s[k] != ' ' && s[k] != '\t' && s[k] != '\r' && s[k]
                != '\n',
        url_end(s, i) == s.len() || s[url_end(s, i)] == ' ' || s[url_end(s, i)] == '\t' || s[url_end(
            s,
            i,
        )] == '\r' || s[url_end(s, i)] == '\n',
{
    lemma_url_end(s, i);
}

} // verus!
