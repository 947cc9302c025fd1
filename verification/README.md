# token-compress-cli

Reversible token compression for LLM prompts, logs and outputs, as a library
whose behaviour is stated in contracts and proved with Verus, plus a small
command-line front end.

## Layout

- `src/` — the verified library.
  - `escape.rs` — `⟦` escaping, so markers never collide with user text.
  - `ws.rs`, `dedup.rs`, `urls.rs`, `filler.rs` — the four stages, each with
    its compression, its expansion and their specifications.
  - `compress.rs`, `expand.rs` — the pipeline in both directions.
  - `map.rs` — the reversibility map and the inline footer framing.
  - `roundtrip.rs` — the round-trip theorems for the whole pipeline.
  - `text.rs` — character-level primitives (lines, search, UTF-8 lengths,
    decimal numbers).
  - `tokens.rs` — character classes for the token estimate.
  - `cli.rs` — command and option parsing.
  - `cache.rs` — a small expiring cache.
- `tests/` — tests run against the compiled library.
- `app/` — the command-line program: file and stream I/O, JSON for the map,
  and the floating-point token estimate.

## What is proved

- `expand(compress(x)) == x` for every input and every choice of stages,
  both with the map beside the body and with the map in the footer (given
  the map read back is the one written).
- Each stage's expansion undoes its compression; the footer framing gives the
  body and the JSON back; corrupt maps and footers give errors, never a
  panic.
- What the stages leave: no double spaces and no three blank lines in a row
  after `ws`, and trailing blanks only where stripping them could not be
  undone; an empty whitespace map exactly when nothing changed; no line three
  times in a row after `dedup` (on escaped text); no filler phrase after
  `filler`; no URL listed twice.
