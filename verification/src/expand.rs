//! The expansion pipeline: the inverse stages in reverse order, then unescape.

use vstd::prelude::*;
use crate::compress::{dedup_name, filler_name, urls_name, ws_name};
use crate::dedup::{self, dedup_expand_spec};
use crate::error::TcError;
use crate::escape::{self, unescape_spec};
use crate::filler::{self, filler_expand_segs};
use crate::map::{TcMap, TcModel};
use crate::text::{
    chars_eq, chars_of, join_lines, join_lines_exec, split_lines, split_lines_exec,
    str_slice_to_chars, string_of, text_with_chars, view_lines,
};
use crate::urls::{self, url_expand_segs};
use crate::ws::{self, ws_expand_spec};

verus! {

/// Error message for a stage name the map does not know.
pub open spec fn unknown_stage_msg(name: Seq<char>) -> Seq<char> {
    "corrupt map: unknown stage '"@ + name + "'"@
}

/// The inverse of the stage `name` applied to `segs`.
pub open spec fn stage_inverse(segs: Seq<Seq<char>>, name: Seq<char>, m: TcModel) -> Result<
    Seq<Seq<char>>,
    Seq<char>,
> {
    if name == filler_name() {
        filler_expand_segs(segs)
    } else if name == urls_name() {
        url_expand_segs(segs, m.urls)
    } else if name == dedup_name() {
        dedup_expand_spec(segs)
    } else if name == ws_name() {
        ws_expand_spec(segs, m.ws)
    } else {
        Err(unknown_stage_msg(name))
    }
}

/// The inverses of `stages` applied to `segs`, last stage first; the first
/// error stops it.
pub open spec fn expand_stages(segs: Seq<Seq<char>>, stages: Seq<Seq<char>>, m: TcModel) -> Result<
    Seq<Seq<char>>,
    Seq<char>,
>
    decreases stages.len(),
{
    if stages.len() == 0 {
        Ok(segs)
    } else {
        match stage_inverse(segs, stages.last(), m) {
            Ok(prev) => expand_stages(prev, stages.drop_last(), m),
            Err(e) => Err(e),
        }
    }
}

/// What [`expand_text`] gives for `body` and the map `m`.
pub open spec fn expand_spec(body: Seq<char>, m: TcModel) -> Result<Seq<char>, Seq<char>> {
    match expand_stages(split_lines(body), m.stages, m) {
        Ok(s) => Ok(unescape_spec(join_lines(s))),
        Err(e) => Err(e),
    }
}

/// The outcome `r` is the one `o` describes.
pub open spec fn expanded_as(r: Result<String, TcError>, o: Result<Seq<char>, Seq<char>>) -> bool {
    match o {
        Ok(t) => r matches Ok(x) && x@ == t,
        Err(m) => r matches Err(e) && e.msg@ == m,
    }
}

/// Expands `body` with `map`: the inverse stages in reverse order, then
/// unescape.
pub fn expand_text(body: &str, map: &TcMap) -> (r: Result<String, TcError>)
    ensures
        expanded_as(r, expand_spec(body@, map@)),
{
    let chars = chars_of(body);
    let mut segs = split_lines_exec(chars.as_slice());
    let url_lines = str_slice_to_chars(map.urls.as_slice());
    assert(view_lines(url_lines@) =~= map@.urls);
    let f = chars_of("filler");
    let u = chars_of("urls");
    let d = chars_of("dedup");
    let w = chars_of("ws");
    proof {
        reveal_strlit("filler");
        reveal_strlit("urls");
        reveal_strlit("dedup");
        reveal_strlit("ws");
    }
    let mut i: usize = map.stages.len();
    assert(map@.stages.take(i as int) =~= map@.stages);
    while i > 0
        invariant
            i <= map@.stages.len(),
            map@.stages.len() == map.stages@.len(),
            expand_stages(view_lines(segs@), map@.stages.take(i as int), map@) == expand_stages(
                split_lines(body@),
                map@.stages,
                map@,
            ),
            f@ == filler_name(),
            u@ == urls_name(),
            d@ == dedup_name(),
            w@ == ws_name(),
            view_lines(url_lines@) == map@.urls,
        decreases i,
    {
        let ghost stages = map@.stages.take(i as int);
        assert(stages.drop_last() =~= map@.stages.take(i - 1));
        let name = chars_of(map.stages[i - 1].as_str());
        assert(name@ == stages.last());
        if chars_eq(name.as_slice(), f.as_slice()) {
            match filler::expand_lines(&segs) {
                Ok(x) => segs = x,
                Err(e) => return Err(e),
            }
        } else if chars_eq(name.as_slice(), u.as_slice()) {
            match urls::expand_lines(&segs, &url_lines) {
                Ok(x) => segs = x,
                Err(e) => return Err(e),
            }
        } else if chars_eq(name.as_slice(), d.as_slice()) {
            match dedup::expand_lines(&segs) {
                Ok(x) => segs = x,
                Err(e) => return Err(e),
            }
        } else if chars_eq(name.as_slice(), w.as_slice()) {
            match ws::expand_lines(segs, &map.ws) {
                Ok(x) => segs = x,
                Err(e) => return Err(e),
            }
        } else {
            let msg = text_with_chars("corrupt map: unknown stage '", name.as_slice(), "'");
            return Err(TcError::new(msg));
        }
        i -= 1;
    }
    assert(map@.stages.take(0) =~= Seq::<Seq<char>>::empty());
    let joined = join_lines_exec(&segs);
    let s = string_of(joined.as_slice());
    Ok(escape::unescape(s.as_str()))
}

} // verus!
