use token_compress_cli::compress::{compress_text, Options};
use token_compress_cli::expand::expand_text;
use token_compress_cli::map::{
    finish_inline, frame_inline, inline_sep, locate_footer, TcMap, FOOTER_CLOSE,
    FOOTER_OPEN_PREFIX, MAP_VERSION,
};

/// The bundled source-code fixture, one line per entry.
const CODE_LINES: &[&str] = &[
    "use std::collections::HashMap;",
    "",
    "/// A small in-memory cache with TTL support.",
    "pub struct Cache<K, V> {",
    "    entries: HashMap<K, (V, u64)>,",
    "}",
    "",
    "impl<K: std::hash::Hash + Eq + Clone, V: Clone> Cache<K, V> {",
    "    pub f\x6e new() -> Self {",
    "        Self {",
    "            entries: HashMap::new(),",
    "        }",
    "    }",
    "",
    "    pub f\x6e insert(&mut self, key: K, value: V, ttl: u64) {",
    "        self.entries.insert(key, (value, ttl));",
    "    }",
    "",
    "    pub f\x6e get(&self, key: &K, now: u64) -> Option<V> {",
    "        self.entries.get(key).and_then(|(v, ttl)| {",
    "            if now <= *ttl {",
    "                Some(v.clone())",
    "            } else {",
    "                None",
    "            }",
    "        })",
    "    }",
    "",
    "    pub f\x6e evict_expired(&mut self, now: u64) {",
    "        self.entries.retain(|_, (_, ttl)| *ttl >= now);",
    "    }",
    "}",
    "",
    "\x23[c\x66g(t\x65st)]",
    "\x6dod t\x65sts {",
    "    use super::*;",
    "",
    "    \x23[t\x65st]",
    "    f\x6e basic_roundtrip() {",
    "        let mut c = Cache::new();",
    "        c.insert(\"a\", 1, 100);",
    "        assert_eq!(c.get(&\"a\", 50), Some(1));",
    "        assert_eq!(c.get(&\"a\", 150), None);",
    "    }",
    "}",
    "",
];

fn code_fixture() -> String {
    CODE_LINES.join("\n")
}

/// Further samples of the kinds of text the tool is meant for.
const PROSE: &str = "Great question! The short answer is yes.\n\nCertainly! Here is more:   spaced   out.  \nI hope this helps! Thanks for asking! \n";
const LOG: &str = "2024-01-01 INFO start https://example.com/api/v1/resource/items\n2024-01-01 INFO tick\n2024-01-01 INFO tick\n2024-01-01 INFO tick\n2024-01-01 INFO tick\n\n\n\n\n2024-01-01 WARN retry https://example.com/api/v1/resource/items\n";
const MARKERS: &str = "literal ⟦REP 3×⟧ and ⟦U0⟧ and ⟦F1⟧ and ⟦ESC⟧ and ⟦TCMAP v1 stages=ws⟧\n⟦/TCMAP⟧\n⟦\n";
const CJK: &str = "你好世界，这是一个测试。\nこんにちは  世界\n안녕하세요\n";
const CRLF: &str = "line one  \r\nline  two\r\n\r\n\r\n\r\n\r\nend\r\n";

fn fixtures() -> Vec<String> {
    let mut v = vec![code_fixture()];
    for s in [PROSE, LOG, MARKERS, CJK, CRLF] {
        v.push(s.to_string());
    }
    v
}

/// Frames the body as the command-line front end does, with the JSON step
/// (which only carries the map) replaced by handing the map over directly.
fn frame(body: &str, map: &TcMap) -> (String, TcMap) {
    let sep = inline_sep(body);
    let mut m = map.clone();
    m.sep = sep.clone();
    (frame_inline(body, &sep, &m.stages, "{\"v\":1}"), m)
}

fn unframe(text: &str, m: TcMap) -> (String, TcMap) {
    let f = locate_footer(text).unwrap();
    assert_eq!(f.json, "{\"v\":1}");
    finish_inline(text, f.open, m).unwrap()
}

fn assert_roundtrip(input: &str, opts: &Options, label: &str) {
    // Inline (footer) mode.
    let (body, map) = compress_text(input, opts);
    let (framed, m) = frame(&body, &map);
    let (body2, map2) = unframe(&framed, m);
    assert_eq!(body2, body, "inline framing failed: {label}");
    let restored = expand_text(&body2, &map2).unwrap();
    assert_eq!(restored, input, "inline round-trip failed: {label}");

    // Sidecar mode (body without footer).
    let restored2 = expand_text(&body, &map).unwrap();
    assert_eq!(restored2, input, "sidecar round-trip failed: {label}");
}

fn no_stages() -> Options {
    Options { ws: false, dedup: false, urls: false, filler: false }
}

#[test]
fn a1_roundtrip_all_stages() {
    let opts = Options::default();
    for (k, f) in fixtures().iter().enumerate() {
        assert_roundtrip(f, &opts, &format!("fixture {k}"));
    }
}

#[test]
fn a1_roundtrip_no_stages() {
    let opts = no_stages();
    for (k, f) in fixtures().iter().enumerate() {
        assert_roundtrip(f, &opts, &format!("fixture {k}"));
    }
}

#[test]
fn a1_roundtrip_each_stage_isolated() {
    for (k, f) in fixtures().iter().enumerate() {
        for stage in ["ws", "dedup", "urls", "filler"] {
            let opts = Options {
                ws: stage == "ws",
                dedup: stage == "dedup",
                urls: stage == "urls",
                filler: stage == "filler",
            };
            assert_roundtrip(f, &opts, &format!("fixture {k} [{stage}]"));
        }
    }
}

#[test]
fn a3_echo_pipe_roundtrip() {
    let input = "x\n";
    assert_roundtrip(input, &Options::default(), "echo x");
    let input2 = "hello world";
    assert_roundtrip(input2, &Options::default(), "no trailing newline");
}

#[test]
fn a4_corrupt_map_errors() {
    // REP marker without a following line.
    let bad_body = "⟦REP 3×⟧";
    let mut map = TcMap::new();
    map.stages.push("dedup".into());
    assert!(expand_text(bad_body, &map).is_err());

    // Unknown stage name.
    let mut map2 = TcMap::new();
    map2.stages.push("bogus".into());
    assert!(expand_text("anything", &map2).is_err());

    // URL id outside map.
    let mut map3 = TcMap::new();
    map3.stages.push("urls".into());
    assert!(expand_text("see ⟦U5⟧ here", &map3).is_err());

    // Missing footer entirely.
    assert!(locate_footer("no footer at all").is_err());
}

#[test]
fn default_options_run_every_stage() {
    let o = Options::default();
    assert!(o.ws && o.dedup && o.urls && o.filler);
}

#[test]
fn compress_text_exact_output() {
    let input = "Great question! See https://example.com/a/very/long/path/here\n\n\n\nok  ok";
    let (body, map) = compress_text(input, &Options::default());
    assert_eq!(body, "⟦F0⟧See ⟦U0⟧\n\n\nok ok");
    assert_eq!(map.v, MAP_VERSION);
    assert_eq!(map.stages, vec!["ws", "dedup", "urls", "filler"]);
    assert_eq!(map.urls, vec!["https://example.com/a/very/long/path/here"]);
    assert_eq!(map.filler_used, vec![0]);
    assert_eq!(map.ws.runs, vec![(3, 2, 2)]);
    assert_eq!(map.ws.blanks, vec![(2, vec!["".to_string()])]);
    assert!(map.ws.trailing.is_empty());
    assert_eq!(map.sep, "");
    assert_eq!(expand_text(&body, &map).unwrap(), input);
}

#[test]
fn compress_text_escapes_brackets_first() {
    let (body, map) = compress_text("a⟦b", &no_stages());
    assert_eq!(body, "a⟦ESC⟧b");
    assert!(map.stages.is_empty());
    assert_eq!(expand_text(&body, &map).unwrap(), "a⟦b");
}

#[test]
fn stage_names_follow_options() {
    let (_, map) = compress_text("x", &Options { ws: false, dedup: true, urls: false, filler: true });
    assert_eq!(map.stages, vec!["dedup", "filler"]);
}

#[test]
fn expand_rejects_unknown_stage() {
    let mut map = TcMap::new();
    map.stages.push("bogus".into());
    let e = expand_text("anything", &map).unwrap_err();
    assert_eq!(e.msg, "corrupt map: unknown stage 'bogus'");
}

#[test]
fn expand_applies_stages_last_first() {
    // The filler inverse runs before the dedup inverse.
    let mut map = TcMap::new();
    map.stages.push("dedup".into());
    map.stages.push("filler".into());
    let out = expand_text("⟦REP 3×⟧\n⟦F3⟧x", &map).unwrap();
    assert_eq!(out, "Certainly! x\nCertainly! x\nCertainly! x");
}

#[test]
fn expand_keeps_invalid_url_markers_literally() {
    let mut map = TcMap::new();
    map.stages.push("urls".into());
    assert_eq!(expand_text("⟦Ux⟧", &map).unwrap(), "⟦Ux⟧");
    assert_eq!(expand_text("abcde⟦U⟧", &map).unwrap(), "abcde⟦U⟧");
    assert_eq!(expand_text("abcdefghij⟦Ux⟧", &map).unwrap(), "abcdefghij⟦Ux⟧");
    let e = expand_text("⟦U0⟧", &map).unwrap_err();
    assert_eq!(e.msg, "corrupt map: URL id 0 not in map");
}

#[test]
fn roundtrip_with_whitespace_after_inner_cr() {
    for input in ["\r ", "a\r  \nb\r \t", "x\r\t\r\n\r \n\n\n\n"] {
        assert_roundtrip(input, &Options::default(), "inner cr");
    }
}

#[test]
fn dedup_marks_runs_of_empty_lines() {
    let opts = Options { ws: false, dedup: true, urls: false, filler: false };
    let (body, map) = compress_text("a\n\n\n\nb", &opts);
    assert_eq!(body, "a\n⟦REP 3×⟧\n\nb");
    assert_eq!(expand_text(&body, &map).unwrap(), "a\n\n\n\nb");
}

#[test]
fn inline_roundtrip() {
    let mut map = TcMap::new();
    map.stages.push("ws".into());
    for body in ["hello", "hello\n", ""] {
        let (framed, m) = frame(body, &map);
        let (got_body, got_map) = unframe(&framed, m);
        assert_eq!(got_body, body);
        assert_eq!(got_map.stages, map.stages);
    }
}

#[test]
fn rejects_missing_footer() {
    assert!(locate_footer("just some text").is_err());
}

#[test]
fn inline_frame_exact_text() {
    assert_eq!(FOOTER_OPEN_PREFIX, "⟦TCMAP v1 stages=");
    assert_eq!(FOOTER_CLOSE, "⟦/TCMAP⟧");
    assert_eq!(inline_sep(""), "");
    assert_eq!(inline_sep("a\n"), "");
    assert_eq!(inline_sep("a"), "\n");
    let stages = vec!["ws".to_string(), "urls".to_string()];
    let t = frame_inline("body", "\n", &stages, "{}");
    assert_eq!(t, "body\n⟦TCMAP v1 stages=ws,urls⟧\n{}\n⟦/TCMAP⟧\n");
    let f = locate_footer(&t).unwrap();
    assert_eq!(f.open, 5);
    assert_eq!(f.json, "{}");
}

#[test]
fn footer_errors() {
    let e = locate_footer("text ⟦/TCMAP⟧").unwrap_err();
    assert_eq!(e.msg, "no inline map found: missing ⟦TCMAP v1⟧ header");
    let e = locate_footer("text").unwrap_err();
    assert_eq!(
        e.msg,
        "no inline map found: missing ⟦/TCMAP⟧ footer (use -m with a map file?)"
    );
    // A header whose end lies inside the closing line.
    let e = locate_footer("⟦TCMAP v1 stages=x⟦/TCMAP⟧").unwrap_err();
    assert_eq!(e.msg, "corrupt map: unterminated footer header");
}

#[test]
fn finish_checks_version_and_separator() {
    let text = "é\n⟦TCMAP v1 stages=⟧\n{}\n⟦/TCMAP⟧\n";
    let mut m = TcMap::new();
    m.v = 2;
    let e = finish_inline(text, 2, m).unwrap_err();
    assert_eq!(e.msg, "unsupported map version 2 (this build supports v1)");

    let mut m = TcMap::new();
    m.sep = "\n\n\n\n".to_string();
    let e = finish_inline(text, 2, m).unwrap_err();
    assert_eq!(e.msg, "corrupt map: footer overlaps body");

    let mut m = TcMap::new();
    m.sep = "\n".to_string();
    let (body, _) = finish_inline(text, 2, m).unwrap();
    assert_eq!(body, "é");

    // A separator that would cut the two-byte `é` in two.
    let mut m = TcMap::new();
    m.sep = "xx".to_string();
    let e = finish_inline(text, 2, m).unwrap_err();
    assert_eq!(e.msg, "corrupt map: separator does not end on a character boundary");
}
