use token_compress_cli::dedup;
use token_compress_cli::escape::{escape, unescape, ESC};
use token_compress_cli::filler;
use token_compress_cli::urls;
use token_compress_cli::ws::{self, WsMap};

fn split(s: &str) -> Vec<String> {
    s.split('\n').map(String::from).collect()
}

fn dedup_rt(s: &str) {
    let segs = split(s);
    let back = dedup::expand(dedup::compress(segs.clone())).unwrap();
    assert_eq!(back.join("\n"), s, "input: {s:?}");
}

fn filler_rt(s: &str) {
    let segs = split(s);
    let mut used = Vec::new();
    let comp = filler::compress(segs.clone(), &mut used);
    let back = filler::expand(comp).unwrap();
    assert_eq!(back.join("\n"), s, "input: {s:?}");
}

fn urls_rt(s: &str) {
    let segs = split(s);
    let mut list = Vec::new();
    let comp = urls::compress(segs.clone(), &mut list);
    let back = urls::expand(comp, &list).unwrap();
    assert_eq!(back.join("\n"), s, "input: {s:?}");
}

fn ws_rt(s: &str) {
    let segs = split(s);
    let (comp, map) = ws::compress(segs.clone());
    let back = ws::expand(comp, &map).unwrap();
    assert_eq!(back.join("\n"), s, "input: {s:?}");
}

fn strings(v: &[&str]) -> Vec<String> {
    v.iter().map(|s| s.to_string()).collect()
}

// ---------------------------------------------------------------- escape

#[test]
fn roundtrip_plain() {
    for s in ["", "abc", "⟦", "⟦⟧", "⟦ESC⟧", "⟦U1⟧", "x⟦y⟧z", "⟦⟦⟦"] {
        assert_eq!(unescape(&escape(s)), s, "input: {s:?}");
    }
}

#[test]
fn double_escape_roundtrip() {
    let once = escape("⟦ESC⟧");
    let twice = escape(&once);
    assert_eq!(unescape(&twice), once);
    assert_eq!(unescape(&unescape(&twice)), "⟦ESC⟧");
}

#[test]
fn escape_replaces_every_open_bracket() {
    assert_eq!(ESC, "⟦ESC⟧");
    assert_eq!(escape("a⟦b⟦"), "a⟦ESC⟧b⟦ESC⟧");
    assert_eq!(escape("no brackets ⟧"), "no brackets ⟧");
    assert_eq!(unescape("⟦U1⟧ and ⟦ESC⟧"), "⟦U1⟧ and ⟦");
}

// ----------------------------------------------------------------- dedup

#[test]
fn dedup_roundtrips() {
    dedup_rt("a\na\na");
    dedup_rt("a\na");
    dedup_rt("x\ny\ny\ny\ny\nz");
    dedup_rt("line\nline\nline\nline\nline");
    dedup_rt("a\na\na\nb\nb\nb");
    dedup_rt("⟦REP 3×⟧\n⟦REP 3×⟧\n⟦REP 3×⟧");
}

#[test]
fn compresses() {
    let segs: Vec<String> = vec!["l", "l", "l", "l"].into_iter().map(String::from).collect();
    let out = dedup::compress(segs);
    assert_eq!(out, vec!["⟦REP 4×⟧", "l"]);
}

#[test]
fn dedup_keeps_short_runs_and_marks_empty_runs() {
    assert_eq!(dedup::compress(strings(&["a", "a", "b"])), vec!["a", "a", "b"]);
    assert_eq!(dedup::compress(strings(&["", "", "", ""])), vec!["⟦REP 4×⟧", ""]);
    assert_eq!(dedup::expand(strings(&["⟦REP 3×⟧", ""])).unwrap(), vec!["", "", ""]);
    assert_eq!(
        dedup::compress(strings(&["x", "y", "y", "y", "z"])),
        vec!["x", "⟦REP 3×⟧", "y", "z"]
    );
}

#[test]
fn dedup_parse_marker_values() {
    assert_eq!(dedup::parse_marker("⟦REP 12×⟧"), Some(12));
    assert_eq!(dedup::parse_marker("⟦REP ×⟧"), None);
    assert_eq!(dedup::parse_marker("⟦REP 1a×⟧"), None);
    assert_eq!(dedup::parse_marker("REP 3"), None);
}

#[test]
fn dedup_rejects_small_count() {
    let e = dedup::expand(strings(&["⟦REP 2×⟧", "x"])).unwrap_err();
    assert_eq!(e.msg, "corrupt map: REP count 2 < 3");
}

#[test]
fn dedup_rejects_orphan_marker() {
    let e = dedup::expand(strings(&["⟦REP 3×⟧"])).unwrap_err();
    assert_eq!(e.msg, "corrupt map: REP marker without a following line");
}

// ---------------------------------------------------------------- filler

#[test]
fn filler_roundtrips() {
    filler_rt("Great question! The answer is 42.");
    filler_rt("Certainly! Certainly! Certainly!");
    filler_rt("no filler here");
}

#[test]
fn compresses_filler() {
    let mut used = Vec::new();
    let out = filler::compress(vec!["Great question! x".to_string()], &mut used);
    assert_eq!(out, vec!["⟦F0⟧x"]);
    assert_eq!(used, vec![0]);
}

#[test]
fn filler_records_each_id_once() {
    let mut used = Vec::new();
    let out = filler::compress(
        strings(&["Certainly! Certainly! Sure thing! ok", "Thanks for asking! "]),
        &mut used,
    );
    assert_eq!(out, vec!["⟦F3⟧⟦F3⟧⟦F4⟧ok", "⟦F11⟧"]);
    assert_eq!(used, vec![3, 4, 11]);
}

#[test]
fn filler_markers_and_phrases() {
    assert_eq!(filler::marker(7), "⟦F7⟧");
    assert_eq!(filler::parse_marker("⟦F7⟧"), Some(7));
    assert_eq!(filler::parse_marker("⟦F⟧"), None);
    assert_eq!(filler::phrase_str(0), "Great question! ");
    assert_eq!(filler::phrase_str(11), "Thanks for asking! ");
}

#[test]
fn filler_rejects_unknown_id() {
    let e = filler::expand(strings(&["⟦F12⟧"])).unwrap_err();
    assert_eq!(e.msg, "corrupt map: filler id 12 outside known list (v1 has 12 phrases)");
}

#[test]
fn filler_rejects_unterminated_marker() {
    let e = filler::expand(strings(&["⟦F3"])).unwrap_err();
    assert_eq!(e.msg, "corrupt map: unterminated filler marker");
}

// ------------------------------------------------------------------ urls

#[test]
fn urls_roundtrips() {
    urls_rt("see https://example.com/very/long/path/to/resource for details");
    urls_rt("short http://a.io stays");
    urls_rt("https://github.com/fuleinist/token-compress-cli/issues/123");
    urls_rt("xhttps://not-a-boundary.example.com/long/enough/to/matter");
    urls_rt("https://same.example.com/path/twice https://same.example.com/path/twice");
}

#[test]
fn dedups_identical_urls() {
    let mut list = Vec::new();
    let segs = vec![
        "https://example.com/abcdefghijk/lmn https://example.com/abcdefghijk/lmn".to_string(),
    ];
    let out = urls::compress(segs, &mut list);
    assert_eq!(list.len(), 1);
    assert!(out[0].contains("⟦U0⟧"));
}

#[test]
fn urls_replaced_in_order() {
    let mut list = Vec::new();
    let out = urls::compress(
        strings(&[
            "(https://example.com/first/long/path) and https://example.com/second/long/path",
            "https://example.com/first/long/path)",
        ]),
        &mut list,
    );
    assert_eq!(out, vec!["(⟦U0⟧ and ⟦U1⟧", "⟦U0⟧"]);
    assert_eq!(
        list,
        vec!["https://example.com/first/long/path)", "https://example.com/second/long/path"]
    );
}

#[test]
fn urls_length_counts_characters() {
    let mut list = Vec::new();
    let seg = "http://".to_string() + &"é".repeat(9);
    let out = urls::compress(vec![seg.clone()], &mut list);
    assert_eq!(out, vec![seg]);
    assert!(list.is_empty());
    let long = "http://".to_string() + &"é".repeat(18);
    let out = urls::compress(vec![long.clone()], &mut list);
    assert_eq!(out, vec!["⟦U0⟧"]);
    assert_eq!(list, vec![long]);
}

#[test]
fn urls_keep_malformed_markers_literally() {
    for s in ["⟦Ux⟧", "abcdefghij⟦Ux⟧", "abcde⟦U⟧", "⟦U⟦U1⟧"] {
        let back = urls::expand(strings(&[s]), &strings(&["u0", "u1"]));
        let want = if s == "⟦U⟦U1⟧" { "⟦Uu1".to_string() } else { s.to_string() };
        assert_eq!(back.unwrap(), vec![want], "input: {s:?}");
    }
}

#[test]
fn urls_markers() {
    assert_eq!(urls::marker(3), "⟦U3⟧");
    assert_eq!(urls::parse_marker("⟦U3⟧"), Some(3));
    assert_eq!(urls::parse_marker("⟦U⟧"), None);
}

#[test]
fn urls_reject_unknown_id() {
    let e = urls::expand(strings(&["see ⟦U5⟧ here"]), &[]).unwrap_err();
    assert_eq!(e.msg, "corrupt map: URL id 5 not in map");
}

#[test]
fn urls_reject_unterminated_marker() {
    let e = urls::expand(strings(&["see ⟦U5 here"]), &[]).unwrap_err();
    assert_eq!(e.msg, "corrupt map: unterminated URL marker");
}

// -------------------------------------------------------------------- ws

#[test]
fn ws_roundtrips() {
    ws_rt("");
    ws_rt("a  b");
    ws_rt("a     b   c");
    ws_rt("trailing   \nnext");
    ws_rt("a\n\n\n\n\nb");
    ws_rt("\n\n\n\n");
    ws_rt("a\t\tb  \r\nc\r\n");
    ws_rt("   \n   \n   \n   \nx");
    ws_rt("single space stays");
}

#[test]
fn ws_records_what_it_removed() {
    let (out, map) = ws::compress(strings(&["a   b  ", "", "", "", "c"]));
    assert_eq!(out, vec!["a b", "", "", "c"]);
    assert_eq!(map.runs, vec![(0, 1, 3)]);
    assert_eq!(map.trailing, vec![(0, "  ".to_string())]);
    assert_eq!(map.blanks, vec![(2, vec!["".to_string()])]);
    assert!(!map.is_empty());
    assert!(WsMap::new().is_empty());
}

#[test]
fn ws_keeps_whitespace_after_an_inner_cr() {
    // Stripping would leave a `\r` at the end of a segment without a final
    // `\r`; the whitespace stays, and runs in it are still collapsed.
    let (comp, map) = ws::compress(strings(&["a\r ", "\r \t", "b\r   "]));
    assert_eq!(comp, vec!["a\r ", "\r \t", "b\r "]);
    assert!(map.trailing.is_empty());
    assert_eq!(map.runs, vec![(2, 2, 3)]);
    let back = ws::expand(comp, &map).unwrap();
    assert_eq!(back, vec!["a\r ", "\r \t", "b\r   "]);
    ws_rt("\r ");
    ws_rt("x\r\t \r\n\r  y \r");
}

#[test]
fn ws_rejects_missing_run_segment() {
    let map = WsMap { blanks: vec![], trailing: vec![], runs: vec![(4, 0, 3)] };
    let e = ws::expand(strings(&["a b"]), &map).unwrap_err();
    assert_eq!(e.msg, "corrupt map: ws run segment 4 missing");
}

#[test]
fn ws_rejects_short_run() {
    let map = WsMap { blanks: vec![], trailing: vec![], runs: vec![(0, 1, 1)] };
    let e = ws::expand(strings(&["a b"]), &map).unwrap_err();
    assert_eq!(e.msg, "corrupt map: ws run length 1 < 2");
}

#[test]
fn ws_rejects_run_off_a_space() {
    let map = WsMap { blanks: vec![], trailing: vec![], runs: vec![(0, 0, 3)] };
    let e = ws::expand(strings(&["a b"]), &map).unwrap_err();
    assert_eq!(e.msg, "corrupt map: ws run at segment 0 offset 0 does not point at a space");
}

#[test]
fn ws_rejects_missing_trailing_segment() {
    let map = WsMap { blanks: vec![], trailing: vec![(2, " ".to_string())], runs: vec![] };
    let e = ws::expand(strings(&["a"]), &map).unwrap_err();
    assert_eq!(e.msg, "corrupt map: ws trailing segment 2 missing");
}

#[test]
fn ws_rejects_blanks_out_of_range() {
    let map = WsMap { blanks: vec![(1, vec!["".to_string()])], trailing: vec![], runs: vec![] };
    let e = ws::expand(strings(&["a"]), &map).unwrap_err();
    assert_eq!(e.msg, "corrupt map: ws blanks index 1 out of range");
}

#[test]
fn ws_output_has_no_double_spaces_trailing_blanks_or_blank_triples() {
    let (out, _) = ws::compress(strings(&["a  b \t", "", " ", "\t", "", "x   y   ", "\r"]));
    assert_eq!(out, vec!["a b", "", "", "x y", "\r"]);
    for seg in &out {
        assert!(!seg.contains("  "));
        assert!(!seg.ends_with(' ') && !seg.ends_with('\t'));
    }
}

#[test]
fn dedup_leaves_no_line_three_times_in_a_row() {
    let out = dedup::compress(strings(&["a", "a", "a", "a", "b", "b", "b", "b", "c"]));
    assert_eq!(out, vec!["⟦REP 4×⟧", "a", "⟦REP 4×⟧", "b", "c"]);
}

#[test]
fn filler_marker_never_joins_text_into_a_phrase() {
    let mut used = Vec::new();
    let out = filler::compress(strings(&["Sure Certainly! thing! "]), &mut used);
    assert_eq!(out, vec!["Sure ⟦F3⟧thing! "]);
    assert_eq!(used, vec![3]);
}

#[test]
fn ws_default_map_is_empty() {
    assert!(WsMap::default().is_empty());
}

#[test]
fn ws_map_is_empty_exactly_when_nothing_changed() {
    let segs = strings(&["a b", "", "", "c\r"]);
    let (out, map) = ws::compress(segs.clone());
    assert!(map.is_empty());
    assert_eq!(out, segs);
    let (out, map) = ws::compress(strings(&["a  b"]));
    assert!(!map.is_empty());
    assert_ne!(out, strings(&["a  b"]));
}
