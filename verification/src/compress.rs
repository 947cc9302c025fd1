//! The compression pipeline: escape, then ws, dedup, urls and filler, each
//! stage optional.

use vstd::prelude::*;
use crate::dedup::{self, dedup_spec};
use crate::escape::{self, escape_spec};
use crate::filler::{self, filler_segs};
use crate::map::{TcMap, TcModel, MAP_VERSION};
use crate::text::{
    chars_of, chars_to_strings, join_lines, join_lines_exec, split_lines, split_lines_exec,
    lemma_split_lines_fit, string_of, text_of, utf8_len, view_lines,
};
use crate::urls::{self, urls_segs};
use crate::ws::{self, ws_compress_spec, WsModel};

verus! {

/// Which stages run.
#[derive(Debug, Clone)]
pub struct Options {
    pub ws: bool,
    pub dedup: bool,
    pub urls: bool,
    pub filler: bool,
}

impl Default for Options {
    /// Every stage on.
    fn default() -> (o: Options)
        ensures
            o.ws && o.dedup && o.urls && o.filler,
    {
        Options { ws: true, dedup: true, urls: true, filler: true }
    }
}

/// The stage names as they stand in a map.
pub open spec fn ws_name() -> Seq<char> {
    seq!['w', 's']
}

pub open spec fn dedup_name() -> Seq<char> {
    seq!['d', 'e', 'd', 'u', 'p']
}

pub open spec fn urls_name() -> Seq<char> {
    seq!['u', 'r', 'l', 's']
}

pub open spec fn filler_name() -> Seq<char> {
    seq!['f', 'i', 'l', 'l', 'e', 'r']
}

/// `name` as a one-element list when `on`, else the empty list.
pub open spec fn name_if(on: bool, name: Seq<char>) -> Seq<Seq<char>> {
    if on {
        seq![name]
    } else {
        Seq::empty()
    }
}

/// The names of the stages that run, in compress order.
pub open spec fn stage_names(opts: Options) -> Seq<Seq<char>> {
    name_if(opts.ws, ws_name()) + name_if(opts.dedup, dedup_name()) + name_if(
        opts.urls,
        urls_name(),
    ) + name_if(opts.filler, filler_name())
}

/// The map of a stage that recorded nothing.
pub open spec fn empty_ws_model() -> WsModel {
    WsModel { blanks: Seq::empty(), trailing: Seq::empty(), runs: Seq::empty() }
}

/// The segments of the escaped input.
pub open spec fn input_lines(input: Seq<char>) -> Seq<Seq<char>> {
    split_lines(escape_spec(input))
}

/// The whitespace stage when it runs; the segments unchanged and an empty
/// map when it does not.
pub open spec fn ws_stage(s: Seq<Seq<char>>, on: bool) -> (Seq<Seq<char>>, WsModel) {
    if on {
        ws_compress_spec(s)
    } else {
        (s, empty_ws_model())
    }
}

/// The dedup stage when it runs.
pub open spec fn dedup_stage(s: Seq<Seq<char>>, on: bool) -> Seq<Seq<char>> {
    if on {
        dedup_spec(s)
    } else {
        s
    }
}

/// The URL stage, from an empty URL list, when it runs.
pub open spec fn urls_stage(s: Seq<Seq<char>>, on: bool) -> (Seq<Seq<char>>, Seq<Seq<char>>) {
    if on {
        urls_segs(s, Seq::empty())
    } else {
        (s, Seq::empty())
    }
}

/// The filler stage, from an empty list of used ids, when it runs.
pub open spec fn filler_stage(s: Seq<Seq<char>>, on: bool) -> (Seq<Seq<char>>, Seq<u32>) {
    if on {
        filler_segs(s, Seq::empty())
    } else {
        (s, Seq::empty())
    }
}

/// The compressed segments and the map of `input` under `opts`.
pub open spec fn compress_spec(input: Seq<char>, opts: Options) -> (Seq<Seq<char>>, TcModel) {
    let s0 = input_lines(input);
    let (s1, wm) = ws_stage(s0, opts.ws);
    let s2 = dedup_stage(s1, opts.dedup);
    let (s3, u) = urls_stage(s2, opts.urls);
    let (s4, f) = filler_stage(s3, opts.filler);
    (
        s4,
        TcModel {
            v: MAP_VERSION,
            stages: stage_names(opts),
            ws: wm,
            urls: u,
            filler_used: f,
            sep: Seq::empty(),
        },
    )
}

/// The escaped input takes fewer than `usize::MAX` bytes: it fits in memory,
/// and so do byte offsets into its lines and the number of its lines.
pub open spec fn fits_in_memory(input: Seq<char>) -> bool {
    utf8_len(escape_spec(input)) < usize::MAX
}

/// Compresses `input`: the compressed body (without footer) and the map.
pub fn compress_text(input: &str, opts: &Options) -> (r: (String, TcMap))
    requires
        fits_in_memory(input@),
    ensures
        r.0@ == join_lines(compress_spec(input@, *opts).0),
        r.1@ == compress_spec(input@, *opts).1,
        compress_spec(input@, *opts).1.urls.len() <= usize::MAX,
{
    let mut map = TcMap::new();
    let escaped = escape::escape(input);
    let chars = chars_of(escaped.as_str());
    let mut segs = split_lines_exec(chars.as_slice());
    let ghost s0 = view_lines(segs@);
    proof {
        lemma_split_lines_fit(escape_spec(input@));
        reveal_strlit("ws");
        reveal_strlit("dedup");
        reveal_strlit("urls");
        reveal_strlit("filler");
    }
    if opts.ws {
        let (s, m) = ws::compress_lines(&segs);
        segs = s;
        map.ws = m;
        let name = text_of("ws");
        assert(name@ == ws_name());
        map.stages.push(name);
        assert(map.stages@.len() == 1);
        assert(map.stages.deep_view()[0] == ws_name());
    } else {
        assert(map.ws@.blanks =~= Seq::empty());
        assert(map.ws@.trailing =~= Seq::empty());
        assert(map.ws@.runs =~= Seq::empty());
    }
    proof {
        assert(map.ws@ == ws_stage(s0, opts.ws).1);
        assert(map.stages.deep_view() =~= name_if(opts.ws, ws_name()));
    }
    if opts.dedup {
        segs = dedup::compress_lines(&segs);
        let ghost prev = map.stages.deep_view();
        let name = text_of("dedup");
        assert(name@ == dedup_name());
        map.stages.push(name);
        assert(map.stages.deep_view() =~= prev.push(dedup_name()));
    }
    proof {
        assert(map.stages.deep_view() =~= name_if(opts.ws, ws_name()) + name_if(
            opts.dedup,
            dedup_name(),
        ));
    }
    let mut url_list: Vec<Vec<char>> = Vec::new();
    proof {
        assert(view_lines(url_list@) =~= Seq::<Seq<char>>::empty());
    }
    if opts.urls {
        segs = urls::compress_lines(&segs, &mut url_list);
        let ghost prev = map.stages.deep_view();
        let name = text_of("urls");
        assert(name@ == urls_name());
        map.stages.push(name);
        assert(map.stages.deep_view() =~= prev.push(urls_name()));
    }
    proof {
        assert(map.stages.deep_view() =~= name_if(opts.ws, ws_name()) + name_if(
            opts.dedup,
            dedup_name(),
        ) + name_if(opts.urls, urls_name()));
    }
    map.urls = chars_to_strings(&url_list);
    assert(map.filler_used@ =~= Seq::<u32>::empty());
    if opts.filler {
        segs = filler::compress_lines(&segs, &mut map.filler_used);
        let ghost prev = map.stages.deep_view();
        let name = text_of("filler");
        assert(name@ == filler_name());
        map.stages.push(name);
        assert(map.stages.deep_view() =~= prev.push(filler_name()));
    }
    proof {
        assert(map.stages.deep_view() =~= stage_names(*opts));
        let sp = compress_spec(input@, *opts);
        assert(s0 == input_lines(input@));
        assert(map@.ws == sp.1.ws);
        assert(map@.urls == sp.1.urls);
        assert(map@.filler_used == sp.1.filler_used);
        assert(map@.sep == sp.1.sep);
        assert(view_lines(segs@) == sp.0);
    }
    let n = map.urls.len();
    assert(map@.urls.len() == n);
    let body = join_lines_exec(&segs);
    (string_of(body.as_slice()), map)
}

} // verus!
