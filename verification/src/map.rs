//! Map format v1: the reversibility map and the inline footer framing.
//!
//! The map itself is serialized as JSON by the command-line front end; the
//! library frames the footer around that JSON and finds it again.

use vstd::prelude::*;
use crate::error::TcError;
use crate::text::{
    chars_before_byte, chars_before_byte_exec, chars_of, decimal, extend_chars, find_exec,
    find_from, occurs_at, prefix_bytes, rfind_before, rfind_exec, string_of, strs_view, text_with_number,
    utf8_len,
};
use crate::ws::{WsMap, WsModel};

verus! {

/// The map format this library writes and reads.
pub const MAP_VERSION: u32 = 1;

/// The reversibility map.
#[derive(Debug, Clone)]
pub struct TcMap {
    pub v: u32,
    /// Stage names in compress order; expansion applies the inverses in
    /// reverse. Known: ws, dedup, urls, filler.
    pub stages: Vec<String>,
    pub ws: WsMap,
    pub urls: Vec<String>,
    /// Filler phrase ids used (statistics only; the phrase list is fixed for v1).
    pub filler_used: Vec<u32>,
    /// Separator added before the inline footer ("" or "\n"); inline mode only.
    pub sep: String,
}

/// The contents of a [`TcMap`] as mathematical values.
pub ghost struct TcModel {
    pub v: u32,
    pub stages: Seq<Seq<char>>,
    pub ws: WsModel,
    pub urls: Seq<Seq<char>>,
    pub filler_used: Seq<u32>,
    pub sep: Seq<char>,
}

impl View for TcMap {
    type V = TcModel;

    open spec fn view(&self) -> TcModel {
        TcModel {
            v: self.v,
            stages: self.stages.deep_view(),
            ws: self.ws@,
            urls: self.urls.deep_view(),
            filler_used: self.filler_used@,
            sep: self.sep@,
        }
    }
}

impl TcMap {
    /// An empty version-1 map.
    pub fn new() -> (m: TcMap)
        ensures
            m@.v == MAP_VERSION,
            m@.stages.len() == 0,
            m@.ws.blanks.len() == 0,
            m@.ws.trailing.len() == 0,
            m@.ws.runs.len() == 0,
            m@.urls.len() == 0,
            m@.filler_used.len() == 0,
            m@.sep.len() == 0,
    {
        TcMap {
            v: MAP_VERSION,
            stages: Vec::new(),
            ws: WsMap::new(),
            urls: Vec::new(),
            filler_used: Vec::new(),
            sep: String::new(),
        }
    }
}

impl Default for TcMap {
    fn default() -> (m: TcMap)
        ensures
            m@.v == MAP_VERSION,
            m@.stages.len() == 0,
            m@.ws.blanks.len() == 0,
            m@.ws.trailing.len() == 0,
            m@.ws.runs.len() == 0,
            m@.urls.len() == 0,
            m@.filler_used.len() == 0,
            m@.sep.len() == 0,
    {
        TcMap::new()
    }
}

// ---------------------------------------------------------------------------
// Inline footer framing
// ---------------------------------------------------------------------------

/// The start of the footer header, up to the stage list.
pub const FOOTER_OPEN_PREFIX: &'static str = "\u{27E6}TCMAP v1 stages=";

/// The line that closes the footer.
pub const FOOTER_CLOSE: &'static str = "\u{27E6}/TCMAP\u{27E7}";

/// The characters of [`FOOTER_OPEN_PREFIX`].
pub open spec fn open_prefix() -> Seq<char> {
    seq!['\u{27E6}', 'T', 'C', 'M', 'A', 'P', ' ', 'v', '1', ' ', 's', 't', 'a', 'g', 'e', 's', '=']
}

/// The characters of [`FOOTER_CLOSE`].
pub open spec fn footer_close() -> Seq<char> {
    seq!['\u{27E6}', '/', 'T', 'C', 'M', 'A', 'P', '\u{27E7}']
}

/// The separator put before the footer: none after an empty body or a body
/// that ends with a line feed, else a line feed.
pub open spec fn sep_for(body: Seq<char>) -> Seq<char> {
    if body.len() == 0 || body.last() == '\n' {
        Seq::empty()
    } else {
        seq!['\n']
    }
}

/// The names joined with commas.
pub open spec fn join_commas(names: Seq<Seq<char>>) -> Seq<char>
    decreases names.len(),
{
    if names.len() == 0 {
        Seq::empty()
    } else if names.len() == 1 {
        names[0]
    } else {
        join_commas(names.drop_last()) + seq![','] + names.last()
    }
}

/// The body followed by the separator and the footer holding the stage list
/// and the JSON map.
#[verifier::opaque]
pub open spec fn framed(body: Seq<char>, sep: Seq<char>, stages: Seq<Seq<char>>, json: Seq<char>) -> Seq<char> {
    body + sep + open_prefix() + join_commas(stages) + seq!['\u{27E7}', '\n'] + json + seq!['\n']
        + footer_close() + seq!['\n']
}

/// The separator [`frame_inline`] expects for `body`.
pub fn inline_sep(body: &str) -> (r: String)
    ensures
        r@ == sep_for(body@),
{
    let v = chars_of(body);
    if v.len() == 0 || v[v.len() - 1] == '\n' {
        String::new()
    } else {
        let mut r = String::new();
        r.push('\n');
        assert(r@ =~= seq!['\n']);
        r
    }
}

/// `body`, `sep`, then the footer: the header with the stage list, the JSON
/// map on its own line, and the closing line.
pub fn frame_inline(body: &str, sep: &str, stages: &[String], json: &str) -> (r: String)
    ensures
        r@ == framed(body@, sep@, strs_view(stages@), json@),
{
    let mut v = chars_of(body);
    let t = chars_of(sep);
    extend_chars(&mut v, t.as_slice());
    let o = chars_of("\u{27E6}TCMAP v1 stages=");
    proof {
        reveal_strlit("\u{27E6}TCMAP v1 stages=");
    }
    extend_chars(&mut v, o.as_slice());
    let mut i: usize = 0;
    let ghost start = v@;
    while i < stages.len()
        invariant
            i <= stages@.len(),
            v@ == start + join_commas(strs_view(stages@).take(i as int)),
        decreases stages@.len() - i,
    {
        let ghost names = strs_view(stages@).take(i + 1);
        assert(names.drop_last() =~= strs_view(stages@).take(i as int));
        if i > 0 {
            v.push(',');
        }
        let n = chars_of(stages[i].as_str());
        extend_chars(&mut v, n.as_slice());
        i += 1;
        assert(v@ =~= start + join_commas(names));
    }
    assert(strs_view(stages@).take(stages@.len() as int) =~= strs_view(stages@));
    v.push('\u{27E7}');
    v.push('\n');
    let j = chars_of(json);
    extend_chars(&mut v, j.as_slice());
    v.push('\n');
    let c = chars_of("\u{27E6}/TCMAP\u{27E7}");
    proof {
        reveal_strlit("\u{27E6}/TCMAP\u{27E7}");
    }
    extend_chars(&mut v, c.as_slice());
    v.push('\n');
    proof {
        reveal(framed);
    }
    assert(v@ =~= framed(body@, sep@, strs_view(stages@), json@));
    string_of(v.as_slice())
}

/// Error message for text without a closing footer line.
pub open spec fn missing_footer_msg() -> Seq<char> {
    "no inline map found: missing \u{27E6}/TCMAP\u{27E7} footer (use -m with a map file?)"@
}

/// Error message for a footer without its header.
pub open spec fn missing_header_msg() -> Seq<char> {
    "no inline map found: missing \u{27E6}TCMAP v1\u{27E7} header"@
}

/// Error message for a header that is never closed.
pub open spec fn unterminated_header_msg() -> Seq<char> {
    "corrupt map: unterminated footer header"@
}

/// Where the footer of `t` starts (a character index) and the JSON it holds:
/// the last closing line, the last header before it, the header's end, and
/// the text between them less one line feed on each side. A header whose end
/// lies after the start of the closing line is not terminated.
pub open spec fn locate_spec(t: Seq<char>) -> Result<(int, Seq<char>), Seq<char>> {
    match rfind_before(t, footer_close(), t.len() as int) {
        None => Err(missing_footer_msg()),
        Some(close) => match rfind_before(t, open_prefix(), close) {
            None => Err(missing_header_msg()),
            Some(open) => match find_from(t, seq!['\u{27E7}'], open) {
                None => Err(unterminated_header_msg()),
                Some(h) => {
                    let js0 = h + 1;
                    let js = if js0 < t.len() && t[js0] == '\n' {
                        js0 + 1
                    } else {
                        js0
                    };
                    if js > close {
                        Err(unterminated_header_msg())
                    } else {
                        let raw = t.subrange(js, close);
                        Ok(
                            (
                                open,
                                if raw.len() > 0 && raw.last() == '\n' {
                                    raw.drop_last()
                                } else {
                                    raw
                                },
                            ),
                        )
                    }
                },
            },
        },
    }
}

/// The footer found in inline-framed text.
#[derive(Debug, Clone)]
pub struct InlineFooter {
    /// The character index where the footer header starts.
    pub open: usize,
    /// The JSON map, as text.
    pub json: String,
}

/// Finds the footer of `text`.
pub fn locate_footer(text: &str) -> (r: Result<InlineFooter, TcError>)
    ensures
        match locate_spec(text@) {
            Ok((open, json)) => r matches Ok(f) && f.open == open && f.json@ == json,
            Err(m) => r matches Err(e) && e.msg@ == m,
        },
{
    let t = chars_of(text);
    let close_pat = chars_of("\u{27E6}/TCMAP\u{27E7}");
    let open_pat = chars_of("\u{27E6}TCMAP v1 stages=");
    proof {
        reveal_strlit("\u{27E6}/TCMAP\u{27E7}");
        reveal_strlit("\u{27E6}TCMAP v1 stages=");
        reveal_strlit("no inline map found: missing \u{27E6}/TCMAP\u{27E7} footer (use -m with a map file?)");
        reveal_strlit("no inline map found: missing \u{27E6}TCMAP v1\u{27E7} header");
        reveal_strlit("corrupt map: unterminated footer header");
    }
    assert(close_pat@ == footer_close());
    assert(open_pat@ == open_prefix());
    let close = match rfind_exec(t.as_slice(), close_pat.as_slice(), t.len()) {
        None => {
            return Err(TcError::new(text_of_msg(
                "no inline map found: missing \u{27E6}/TCMAP\u{27E7} footer (use -m with a map file?)",
            )));
        },
        Some(p) => p,
    };
    proof {
        crate::text::lemma_rfind_before_bounds(t@, footer_close(), t@.len() as int);
    }
    let open = match rfind_exec(t.as_slice(), open_pat.as_slice(), close) {
        None => {
            return Err(TcError::new(text_of_msg(
                "no inline map found: missing \u{27E6}TCMAP v1\u{27E7} header",
            )));
        },
        Some(p) => p,
    };
    proof {
        crate::text::lemma_rfind_before_bounds(t@, open_prefix(), close as int);
    }
    let bracket: Vec<char> = vec!['\u{27E7}'];
    assert(bracket@ =~= seq!['\u{27E7}']);
    let h = match find_exec(t.as_slice(), bracket.as_slice(), open) {
        None => {
            return Err(TcError::new(text_of_msg("corrupt map: unterminated footer header")));
        },
        Some(h) => h,
    };
    proof {
        crate::text::lemma_find_from_bounds(t@, seq!['\u{27E7}'], open as int);
    }
    let mut js = h + 1;
    if js < t.len() && t[js] == '\n' {
        js = js + 1;
    }
    if js > close {
        return Err(TcError::new(text_of_msg("corrupt map: unterminated footer header")));
    }
    let mut end = close;
    if end > js && t[end - 1] == '\n' {
        end = end - 1;
    }
    let json = string_of(&t.as_slice()[js..end]);
    proof {
        let raw = t@.subrange(js as int, close as int);
        if raw.len() > 0 && raw.last() == '\n' {
            assert(raw.drop_last() =~= t@.subrange(js as int, end as int));
        } else {
            assert(raw =~= t@.subrange(js as int, end as int));
        }
    }
    Ok(InlineFooter { open, json })
}

/// A message as a `String`.
fn text_of_msg(s: &str) -> (r: String)
    ensures
        r@ == s@,
{
    crate::text::text_of(s)
}


/// Error message for a map of another version.
pub open spec fn version_msg(v: u32) -> Seq<char> {
    "unsupported map version "@ + decimal(v as nat) + " (this build supports v1)"@
}

/// Error message for a separator longer than what precedes the footer.
pub open spec fn overlap_msg() -> Seq<char> {
    "corrupt map: footer overlaps body"@
}

/// Error message for a separator that would cut a character in two.
pub open spec fn split_char_msg() -> Seq<char> {
    "corrupt map: separator does not end on a character boundary"@
}

/// The body of inline-framed text `t` whose footer starts at character
/// `open`, given the map `m` read from the footer: everything before the
/// footer less the separator the map records. The separator is counted in
/// UTF-8 bytes, and must leave a whole number of characters.
pub open spec fn body_spec(t: Seq<char>, open: int, m: TcModel) -> Result<Seq<char>, Seq<char>> {
    if m.v != MAP_VERSION {
        Err(version_msg(m.v))
    } else {
        let ob = utf8_len(t.take(open));
        let sb = utf8_len(m.sep);
        if ob < sb {
            Err(overlap_msg())
        } else {
            match chars_before_byte(t, ob - sb) {
                Some(k) => Ok(t.take(k)),
                None => Err(split_char_msg()),
            }
        }
    }
}

/// Checks the map read from the footer of `text` (which starts at character
/// `open`) and cuts the body off.
pub fn finish_inline(text: &str, open: usize, map: TcMap) -> (r: Result<(String, TcMap), TcError>)
    requires
        open <= text@.len(),
    ensures
        match body_spec(text@, open as int, map@) {
            Ok(b) => r matches Ok((body, m)) && body@ == b && m == map,
            Err(msg) => r matches Err(e) && e.msg@ == msg,
        },
{
    if map.v != MAP_VERSION {
        proof {
            reveal_strlit("unsupported map version ");
            reveal_strlit(" (this build supports v1)");
        }
        let msg = text_with_number("unsupported map version ", map.v as usize, " (this build supports v1)");
        return Err(TcError::new(msg));
    }
    let t = chars_of(text);
    let ob = prefix_bytes(t.as_slice(), open);
    let sep = chars_of(map.sep.as_str());
    let sb = prefix_bytes(sep.as_slice(), sep.len());
    assert(sep@.take(sep@.len() as int) =~= sep@);
    if ob < sb {
        proof {
            reveal_strlit("corrupt map: footer overlaps body");
        }
        return Err(TcError::new(text_of_msg("corrupt map: footer overlaps body")));
    }
    match chars_before_byte_exec(t.as_slice(), ob - sb) {
        None => {
            proof {
                reveal_strlit("corrupt map: separator does not end on a character boundary");
            }
            Err(TcError::new(text_of_msg("corrupt map: separator does not end on a character boundary")))
        },
        Some(k) => {
            proof {
                crate::text::lemma_chars_before_byte(t@, (ob - sb) as int);
            }
            let body = string_of(&t.as_slice()[0..k]);
            assert(t@.subrange(0, k as int) =~= t@.take(k as int));
            Ok((body, map))
        },
    }
}

/// No name holds `x`, so neither does their comma-joined list (for `x` other
/// than a comma).
proof fn lemma_join_commas_free(names: Seq<Seq<char>>, x: char)
    requires
        x != ',',
        forall|k: int, j: int| 0 <= k < names.len() && 0 <= j < names[k].len() ==> #[trigger] names[k][j] != x,
    ensures
        forall|j: int| 0 <= j < join_commas(names).len() ==> #[trigger] join_commas(names)[j] != x,
    decreases names.len(),
{
    if names.len() > 1 {
        let init = names.drop_last();
        assert forall|k: int, j: int| 0 <= k < init.len() && 0 <= j < init[k].len() implies #[trigger] init[k][j] != x by {
            assert(init[k] == names[k]);
        }
        lemma_join_commas_free(init, x);
        let a = join_commas(init) + seq![','];
        let l = names.last();
        assert forall|j: int| 0 <= j < join_commas(names).len() implies #[trigger] join_commas(names)[j] != x by {
            if j < join_commas(init).len() {
                assert(join_commas(names)[j] == join_commas(init)[j]);
            } else if j == join_commas(init).len() {
                assert(join_commas(names)[j] == ',');
            } else {
                assert(join_commas(names)[j] == l[j - a.len()]);
                assert(names[names.len() - 1] == l);
            }
        }
    } else if names.len() == 1 {
        assert forall|j: int| 0 <= j < join_commas(names).len() implies #[trigger] join_commas(names)[j] != x by {
            assert(names[0][j] != x);
        }
    }
}

/// Cutting at the UTF-8 length of the first `k` characters finds `k`.
proof fn lemma_chars_before_prefix(s: Seq<char>, k: int)
    requires
        0 <= k <= s.len(),
    ensures
        chars_before_byte(s, utf8_len(s.take(k)) as int) == Some(k),
    decreases k,
{
    if k == 0 {
        assert(s.take(0) =~= Seq::<char>::empty());
    } else {
        let rest = s.skip(1);
        lemma_chars_before_prefix(rest, k - 1);
        assert(seq![s[0]] + rest.take(k - 1) =~= s.take(k));
        crate::text::lemma_utf8_len_append(seq![s[0]], rest.take(k - 1));
        crate::text::lemma_utf8_len_single(s[0]);
        assert(crate::text::utf8_width(s[0]) >= 1);
    }
}

/// Where each part of framed text stands.
proof fn lemma_framed_shape(
    body: Seq<char>,
    sep: Seq<char>,
    stages: Seq<Seq<char>>,
    json: Seq<char>,
    p: int,
    h: int,
    js: int,
    close: int,
)
    requires
        p == (body + sep).len(),
        h == p + 17 + join_commas(stages).len(),
        js == h + 2,
        close == js + json.len() + 1,
    ensures
        framed(body, sep, stages, json).len() == close + 9,
        framed(body, sep, stages, json).take(p) == body + sep,
        framed(body, sep, stages, json).subrange(p, p + 17) == open_prefix(),
        framed(body, sep, stages, json).subrange(p + 17, h) == join_commas(stages),
        framed(body, sep, stages, json).subrange(h, js) == seq!['\u{27E7}', '\n'],
        framed(body, sep, stages, json).subrange(js, close) == json + seq!['\n'],
        framed(body, sep, stages, json).subrange(close, close + 9) == footer_close() + seq!['\n'],
{
    reveal(framed);
    let t = framed(body, sep, stages, json);
    let a = body + sep;
    let x1 = a + open_prefix();
    let x2 = x1 + join_commas(stages);
    let x3 = x2 + seq!['\u{27E7}', '\n'];
    let x4 = x3 + json;
    let x5 = x4 + seq!['\n'];
    let x6 = x5 + footer_close();
    assert(t == x6 + seq!['\n']);
    assert(t.take(p) =~= a);
    assert(t.subrange(p, p + 17) =~= open_prefix());
    assert(t.subrange(p + 17, h) =~= join_commas(stages));
    assert(t.subrange(h, js) =~= seq!['\u{27E7}', '\n']);
    assert(t.subrange(js, close) =~= json + seq!['\n']);
    assert(t.subrange(close, close + 9) =~= footer_close() + seq!['\n']);
}

/// The closing line of framed text is its last.
proof fn lemma_find_close(t: Seq<char>, close: int)
    requires
        0 <= close,
        t.len() == close + 9,
        t.subrange(close, close + 9) == footer_close() + seq!['\n'],
    ensures
        rfind_before(t, footer_close(), t.len() as int) == Some(close),
{
    let c = footer_close();
    assert(t.subrange(close, close + 8) =~= c) by {
        assert forall|i: int| 0 <= i < 8 implies t.subrange(close, close + 8)[i] == c[i] by {
            assert(t.subrange(close, close + 9)[i] == t[close + i]);
        }
    }
    assert forall|q: int| close < q && q + c.len() <= t.len() implies !occurs_at(t, q, c) by {
        assert(q == close + 1);
        assert(t.subrange(close, close + 9)[1] == t[close + 1]);
        assert(t.subrange(q, q + 8)[0] == t[q]);
    }
    crate::text::lemma_rfind_before_last(t, c, t.len() as int, close);
}

/// The header of framed text is the last one before the closing line.
proof fn lemma_find_open(t: Seq<char>, p: int, h: int, js: int, close: int, jn: Seq<char>, json: Seq<char>)
    requires
        0 <= p,
        h == p + 17 + jn.len(),
        js == h + 2,
        close == js + json.len() + 1,
        t.len() >= close,
        t.subrange(p, p + 17) == open_prefix(),
        t.subrange(p + 17, h) == jn,
        t.subrange(h, js) == seq!['\u{27E7}', '\n'],
        t.subrange(js, close) == json + seq!['\n'],
        forall|j: int| 0 <= j < jn.len() ==> #[trigger] jn[j] != '\u{27E6}',
        forall|i: int| !occurs_at(json, i, open_prefix()),
    ensures
        rfind_before(t, open_prefix(), close) == Some(p),
{
    let o = open_prefix();
    assert forall|q: int| p < q && q + o.len() <= close implies !occurs_at(t, q, o) by {
        if occurs_at(t, q, o) {
            assert(t.subrange(q, q + 17)[0] == t[q]);
            assert(t[q] == '\u{27E6}');
            if q < p + 17 {
                assert(t.subrange(p, p + 17)[q - p] == t[q]);
                assert(o[1] != '\u{27E6}' && o[2] != '\u{27E6}' && o[3] != '\u{27E6}' && o[4]
                    != '\u{27E6}' && o[5] != '\u{27E6}' && o[6] != '\u{27E6}' && o[7] != '\u{27E6}'
                    && o[8] != '\u{27E6}' && o[9] != '\u{27E6}' && o[10] != '\u{27E6}' && o[11]
                    != '\u{27E6}' && o[12] != '\u{27E6}' && o[13] != '\u{27E6}' && o[14]
                    != '\u{27E6}' && o[15] != '\u{27E6}' && o[16] != '\u{27E6}');
            } else if q < h {
                assert(t.subrange(p + 17, h)[q - p - 17] == t[q]);
            } else if q < js {
                assert(t.subrange(h, js)[q - h] == t[q]);
            } else {
                if q + 17 == close {
                    assert(t.subrange(q, q + 17)[16] == t[close - 1]);
                    assert(t.subrange(js, close)[close - 1 - js] == t[close - 1]);
                }
                assert(q + 17 <= js + json.len());
                assert forall|i: int| 0 <= i < 17 implies json.subrange(q - js, q - js + 17)[i]
                    == o[i] by {
                    assert(t.subrange(js, close)[q - js + i] == t[q + i]);
                    assert(t.subrange(q, q + 17)[i] == t[q + i]);
                }
                assert(json.subrange(q - js, q - js + 17) =~= o);
                assert(occurs_at(json, q - js, o));
            }
        }
    }
    crate::text::lemma_rfind_before_last(t, o, close, p);
}

/// The header of framed text ends right after the stage list.
proof fn lemma_find_header_end(t: Seq<char>, p: int, h: int, jn: Seq<char>)
    requires
        0 <= p,
        h == p + 17 + jn.len(),
        t.len() > h,
        t.subrange(p, p + 17) == open_prefix(),
        t.subrange(p + 17, h) == jn,
        t[h] == '\u{27E7}',
        forall|j: int| 0 <= j < jn.len() ==> #[trigger] jn[j] != '\u{27E7}',
    ensures
        find_from(t, seq!['\u{27E7}'], p) == Some(h),
{
    assert(t.subrange(h, h + 1) =~= seq!['\u{27E7}']);
    assert forall|q: int| p <= q < h implies !occurs_at(t, q, seq!['\u{27E7}']) by {
        if occurs_at(t, q, seq!['\u{27E7}']) {
            assert(t.subrange(q, q + 1)[0] == t[q]);
            if q < p + 17 {
                assert(t.subrange(p, p + 17)[q - p] == t[q]);
            } else {
                assert(t.subrange(p + 17, h)[q - p - 17] == t[q]);
            }
        }
    }
    crate::text::lemma_find_from_first(t, seq!['\u{27E7}'], p, h);
}

/// Framing and finding the footer again: from text framed with any body,
/// separator, stage list and JSON, the footer is found where the separator
/// ends and yields the JSON, and a version-1 map that records the separator
/// cuts the body back off. The stage names hold no `⟦` or `⟧`, and the JSON
/// holds no footer header (true of every map compression makes, whose
/// strings come from escaped text).
pub proof fn lemma_inline_roundtrip(
    body: Seq<char>,
    sep: Seq<char>,
    stages: Seq<Seq<char>>,
    json: Seq<char>,
    m: TcModel,
)
    requires
        forall|k: int, j: int|
            0 <= k < stages.len() && 0 <= j < stages[k].len() ==> #[trigger] stages[k][j]
                != '\u{27E6}' && stages[k][j] != '\u{27E7}',
        forall|i: int| !occurs_at(json, i, open_prefix()),
        m.v == MAP_VERSION,
        m.sep == sep,
    ensures
        locate_spec(framed(body, sep, stages, json)) == Ok::<(int, Seq<char>), Seq<char>>(
            ((body + sep).len() as int, json),
        ),
        body_spec(framed(body, sep, stages, json), (body + sep).len() as int, m) == Ok::<
            Seq<char>,
            Seq<char>,
        >(body),
{
    let t = framed(body, sep, stages, json);
    let jn = join_commas(stages);
    let p = (body + sep).len() as int;
    let h = p + 17 + jn.len();
    let js = h + 2;
    let close = js + json.len() + 1;
    assert forall|k: int, j: int| 0 <= k < stages.len() && 0 <= j < stages[k].len() implies #[trigger] stages[k][j]
        != '\u{27E6}' by {}
    lemma_join_commas_free(stages, '\u{27E6}');
    assert forall|k: int, j: int| 0 <= k < stages.len() && 0 <= j < stages[k].len() implies #[trigger] stages[k][j]
        != '\u{27E7}' by {}
    lemma_join_commas_free(stages, '\u{27E7}');
    lemma_framed_shape(body, sep, stages, json, p, h, js, close);
    lemma_find_close(t, close);
    lemma_find_open(t, p, h, js, close, jn, json);
    assert(t.subrange(h, js)[0] == t[h] && t.subrange(h, js)[1] == t[h + 1]);
    lemma_find_header_end(t, p, h, jn);
    let raw = t.subrange(js, close);
    assert(raw.drop_last() =~= json);
    lemma_cut_body(t, body, sep, m);
}

/// A version-1 map that records the separator cuts the body off text that
/// starts with body and separator.
proof fn lemma_cut_body(t: Seq<char>, body: Seq<char>, sep: Seq<char>, m: TcModel)
    requires
        t.len() >= (body + sep).len(),
        t.take((body + sep).len() as int) == body + sep,
        m.v == MAP_VERSION,
        m.sep == sep,
    ensures
        body_spec(t, (body + sep).len() as int, m) == Ok::<Seq<char>, Seq<char>>(body),
{
    let p = (body + sep).len() as int;
    crate::text::lemma_utf8_len_append(body, sep);
    assert(t.take(body.len() as int) =~= body) by {
        assert(t.take(p).take(body.len() as int) =~= t.take(body.len() as int));
    }
    lemma_chars_before_prefix(t, body.len() as int);
}

} // verus!
