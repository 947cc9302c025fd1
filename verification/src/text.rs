//! Character-level text primitives shared by every stage: conversion between
//! `str`/`String` and character vectors, line splitting and joining, substring
//! search, and decimal formatting and parsing.

use vstd::prelude::*;

verus! {

broadcast use vstd::string::group_string_axioms;

/// std's `String::push`, which appends one character at the end of the string.
pub assume_specification[ String::push ](s: &mut String, ch: char)
    ensures
        final(s)@ == old(s)@.push(ch),
;

/// The line feed that separates segments.
pub open spec fn newline() -> char {
    '\n'
}

/// The characters of each vector of `v`.
pub open spec fn view_lines(v: Seq<Vec<char>>) -> Seq<Seq<char>> {
    Seq::new(v.len(), |i: int| v[i]@)
}

// ---------------------------------------------------------------------------
// Conversions
// ---------------------------------------------------------------------------

/// The characters of `s`, in order.
pub fn chars_of(s: &str) -> (v: Vec<char>)
    ensures
        v@ == s@,
{
    let mut v: Vec<char> = Vec::new();
    for c in it: s.chars()
        invariant
            v@ == it.seq().take(it.index() as int),
            it.seq() == s@,
    {
        v.push(c);
    }
    v
}

/// A string made of the characters of `v`.
pub fn string_of(v: &[char]) -> (s: String)
    ensures
        s@ == v@,
{
    let mut s = String::new();
    let mut i: usize = 0;
    while i < v.len()
        invariant
            i <= v@.len(),
            s@ == v@.take(i as int),
        decreases v@.len() - i,
    {
        s.push(v[i]);
        i += 1;
        assert(s@ == v@.take(i as int));
    }
    assert(v@.take(v@.len() as int) == v@);
    s
}

/// The characters of each string of `v`.
pub fn strings_to_chars(v: &Vec<String>) -> (r: Vec<Vec<char>>)
    ensures
        view_lines(r@) == v.deep_view(),
{
    let mut r: Vec<Vec<char>> = Vec::new();
    let mut i: usize = 0;
    while i < v.len()
        invariant
            i <= v@.len(),
            r@.len() == i,
            forall|k: int| 0 <= k < i ==> #[trigger] r@[k]@ == v@[k]@,
        decreases v@.len() - i,
    {
        r.push(chars_of(v[i].as_str()));
        i += 1;
    }
    assert(view_lines(r@) =~= v.deep_view());
    r
}

/// One string per character vector of `v`.
pub fn chars_to_strings(v: &Vec<Vec<char>>) -> (r: Vec<String>)
    ensures
        r.deep_view() == view_lines(v@),
{
    let mut r: Vec<String> = Vec::new();
    let mut i: usize = 0;
    while i < v.len()
        invariant
            i <= v@.len(),
            r@.len() == i,
            forall|k: int| 0 <= k < i ==> #[trigger] r@[k]@ == v@[k]@,
        decreases v@.len() - i,
    {
        r.push(string_of(v[i].as_slice()));
        i += 1;
    }
    assert(r.deep_view() =~= view_lines(v@));
    r
}

// ---------------------------------------------------------------------------
// Lines
// ---------------------------------------------------------------------------

/// `s` cut at every line feed, as `str::split('\n')` does: always at least one
/// segment, and no segment holds a line feed.
pub open spec fn split_lines(s: Seq<char>) -> Seq<Seq<char>>
    decreases s.len(),
{
    if s.len() == 0 {
        seq![Seq::<char>::empty()]
    } else {
        let prev = split_lines(s.drop_last());
        if s.last() == newline() {
            prev.push(Seq::<char>::empty())
        } else {
            prev.update(prev.len() - 1, prev.last().push(s.last()))
        }
    }
}

/// The segments joined with line feeds, as `[String]::join("\n")` does.
pub open spec fn join_lines(segs: Seq<Seq<char>>) -> Seq<char>
    decreases segs.len(),
{
    if segs.len() == 0 {
        Seq::<char>::empty()
    } else if segs.len() == 1 {
        segs[0]
    } else {
        join_lines(segs.drop_last()).push(newline()) + segs.last()
    }
}

/// No segment holds a line feed.
pub open spec fn no_newlines(segs: Seq<Seq<char>>) -> bool {
    forall|k: int, j: int|
        0 <= k < segs.len() && 0 <= j < segs[k].len() ==> #[trigger] segs[k][j] != newline()
}

/// A split has at least one segment, and no segment holds a line feed.
pub proof fn lemma_split_lines_shape(s: Seq<char>)
    ensures
        split_lines(s).len() >= 1,
        no_newlines(split_lines(s)),
    decreases s.len(),
{
    if s.len() > 0 {
        lemma_split_lines_shape(s.drop_last());
    }
}

/// Joining the segments of a split gives the text back.
pub proof fn lemma_join_split(s: Seq<char>)
    ensures
        join_lines(split_lines(s)) == s,
    decreases s.len(),
{
    if s.len() > 0 {
        let prev = split_lines(s.drop_last());
        lemma_join_split(s.drop_last());
        lemma_split_lines_shape(s.drop_last());
        if s.last() == newline() {
            assert(split_lines(s).drop_last() =~= prev);
            assert(s =~= s.drop_last().push(newline()) + Seq::<char>::empty());
        } else {
            let cur = split_lines(s);
            assert(s =~= s.drop_last().push(s.last()));
            if prev.len() == 1 {
                assert(s =~= prev[0].push(s.last()));
            } else {
                assert(cur.drop_last() =~= prev.drop_last());
                let jj = join_lines(prev.drop_last()).push(newline());
                assert(join_lines(prev) == jj + prev.last());
                assert((jj + prev.last()).push(s.last()) =~= jj + prev.last().push(s.last()));
                assert(join_lines(cur) == join_lines(cur.drop_last()).push(newline()) + cur.last());
            }
        }
    }
}

/// Splitting the join of segments free of line feeds gives the segments back.
pub proof fn lemma_split_join(segs: Seq<Seq<char>>)
    requires
        segs.len() >= 1,
        no_newlines(segs),
    ensures
        split_lines(join_lines(segs)) == segs,
    decreases segs.len(),
{
    if segs.len() == 1 {
        lemma_split_of_line(Seq::<Seq<char>>::empty(), segs[0]);
        assert(seq![Seq::<char>::empty()] + Seq::<Seq<char>>::empty() =~= seq![Seq::<char>::empty()]);
    } else {
        let init = segs.drop_last();
        lemma_split_join(init);
        let j = join_lines(init).push(newline());
        assert(split_lines(j) =~= init.push(Seq::<char>::empty())) by {
            assert(j.drop_last() =~= join_lines(init));
        }
        lemma_split_of_line_append(j, segs.last());
        assert(init.push(segs.last()) =~= segs);
    }
}

/// No segment of a split is longer in UTF-8 than the text.
pub proof fn lemma_split_lines_fit(s: Seq<char>)
    ensures
        forall|k: int|
            0 <= k < split_lines(s).len() ==> utf8_len(#[trigger] split_lines(s)[k]) <= utf8_len(s),
    decreases s.len(),
{
    if s.len() > 0 {
        let prev = split_lines(s.drop_last());
        lemma_split_lines_fit(s.drop_last());
        lemma_split_lines_shape(s.drop_last());
        assert(s.drop_last() + seq![s.last()] =~= s);
        lemma_utf8_len_append(s.drop_last(), seq![s.last()]);
        if s.last() != newline() {
            assert(prev.last().push(s.last()) =~= prev.last() + seq![s.last()]);
            lemma_utf8_len_append(prev.last(), seq![s.last()]);
        }
    }
}

proof fn lemma_split_of_line(prefix: Seq<Seq<char>>, line: Seq<char>)
    requires
        forall|j: int| 0 <= j < line.len() ==> line[j] != newline(),
    ensures
        split_lines(line) == seq![line],
    decreases line.len(),
{
    if line.len() > 0 {
        lemma_split_of_line(prefix, line.drop_last());
        assert(line.drop_last().push(line.last()) =~= line);
    } else {
        assert(line =~= Seq::<char>::empty());
    }
}

/// Appending a line without line feeds extends the last segment of a split.
proof fn lemma_split_of_line_append(j: Seq<char>, line: Seq<char>)
    requires
        forall|k: int| 0 <= k < line.len() ==> line[k] != newline(),
        split_lines(j).len() >= 1,
    ensures
        split_lines(j + line) == split_lines(j).update(
            split_lines(j).len() - 1,
            split_lines(j).last() + line,
        ),
    decreases line.len(),
{
    if line.len() == 0 {
        assert(j + line =~= j);
        assert(split_lines(j).last() + line =~= split_lines(j).last());
        assert(split_lines(j).update(split_lines(j).len() - 1, split_lines(j).last())
            =~= split_lines(j));
    } else {
        lemma_split_of_line_append(j, line.drop_last());
        assert((j + line).drop_last() =~= j + line.drop_last());
        assert((split_lines(j).last() + line.drop_last()).push(line.last())
            =~= split_lines(j).last() + line);
        lemma_split_lines_shape(j + line.drop_last());
        assert(split_lines(j + line) =~= split_lines(j).update(
            split_lines(j).len() - 1,
            split_lines(j).last() + line,
        ));
    }
}

/// `s` cut at every line feed.
pub fn split_lines_exec(s: &[char]) -> (r: Vec<Vec<char>>)
    ensures
        view_lines(r@) == split_lines(s@),
{
    let mut r: Vec<Vec<char>> = Vec::new();
    r.push(Vec::new());
    let mut i: usize = 0;
    assert(s@.take(0) =~= Seq::<char>::empty());
    assert(view_lines(r@) =~= split_lines(s@.take(0)));
    while i < s.len()
        invariant
            i <= s@.len(),
            view_lines(r@) == split_lines(s@.take(i as int)),
            r@.len() >= 1,
        decreases s@.len() - i,
    {
        proof {
            lemma_split_lines_shape(s@.take(i as int));
        }
        let c = s[i];
        if c == '\n' {
            r.push(Vec::new());
        } else {
            let mut seg = r.pop().unwrap();
            seg.push(c);
            r.push(seg);
        }
        i += 1;
        assert(s@.take(i as int).drop_last() =~= s@.take(i - 1));
        assert(view_lines(r@) =~= split_lines(s@.take(i as int)));
    }
    assert(s@.take(s@.len() as int) =~= s@);
    r
}

/// The segments joined with line feeds.
pub fn join_lines_exec(segs: &Vec<Vec<char>>) -> (r: Vec<char>)
    ensures
        r@ == join_lines(view_lines(segs@)),
{
    let mut r: Vec<char> = Vec::new();
    let mut i: usize = 0;
    while i < segs.len()
        invariant
            i <= segs@.len(),
            r@ == join_lines(view_lines(segs@).take(i as int)),
        decreases segs@.len() - i,
    {
        if i > 0 {
            r.push('\n');
        }
        let mut k: usize = 0;
        let ghost start = r@;
        while k < segs[i].len()
            invariant
                i < segs@.len(),
                k <= segs@[i as int]@.len(),
                r@ == start + segs@[i as int]@.take(k as int),
            decreases segs@[i as int]@.len() - k,
        {
            r.push(segs[i][k]);
            k += 1;
            assert(r@ =~= start + segs@[i as int]@.take(k as int));
        }
        assert(segs@[i as int]@.take(k as int) =~= segs@[i as int]@);
        let ghost dv = view_lines(segs@);
        assert(dv.take(i + 1).drop_last() =~= dv.take(i as int));
        if i == 0 {
            assert(r@ =~= join_lines(dv.take(1)));
        }
        i += 1;
    }
    assert(view_lines(segs@).take(segs@.len() as int) =~= view_lines(segs@));
    r
}

// ---------------------------------------------------------------------------
// Comparison and search
// ---------------------------------------------------------------------------

/// Whether `a` and `b` hold the same characters.
pub fn chars_eq(a: &[char], b: &[char]) -> (r: bool)
    ensures
        r == (a@ == b@),
{
    if a.len() != b.len() {
        return false;
    }
    let mut i: usize = 0;
    while i < a.len()
        invariant
            a@.len() == b@.len(),
            i <= a@.len(),
            forall|k: int| 0 <= k < i ==> a@[k] == b@[k],
        decreases a@.len() - i,
    {
        if a[i] != b[i] {
            return false;
        }
        i += 1;
    }
    assert(a@ =~= b@);
    true
}

/// `pat` occurs in `s` at index `i`.
pub open spec fn occurs_at(s: Seq<char>, i: int, pat: Seq<char>) -> bool {
    0 <= i && i + pat.len() <= s.len() && s.subrange(i, i + pat.len()) == pat
}

/// Whether `pat` occurs in `s` at index `i`.
pub fn matches_at(s: &[char], i: usize, pat: &[char]) -> (r: bool)
    ensures
        r == occurs_at(s@, i as int, pat@),
{
    if i > s.len() || pat.len() > s.len() - i {
        return false;
    }
    let mut k: usize = 0;
    while k < pat.len()
        invariant
            i + pat.len() <= s.len(),
            k <= pat@.len(),
            forall|m: int| 0 <= m < k ==> s@[i + m] == pat@[m],
        decreases pat@.len() - k,
    {
        if s[i + k] != pat[k] {
            assert(s@.subrange(i as int, i + pat@.len())[k as int] != pat@[k as int]);
            return false;
        }
        k += 1;
    }
    assert(s@.subrange(i as int, i + pat@.len()) =~= pat@);
    true
}

/// The first index at or after `from` where `pat` occurs in `s`.
pub open spec fn find_from(s: Seq<char>, pat: Seq<char>, from: int) -> Option<int>
    decreases s.len() + 1 - from,
{
    if from < 0 || from + pat.len() > s.len() {
        None
    } else if occurs_at(s, from, pat) {
        Some(from)
    } else {
        find_from(s, pat, from + 1)
    }
}

/// A found occurrence is real and the first; none found means none exists.
pub proof fn lemma_find_from_bounds(s: Seq<char>, pat: Seq<char>, from: int)
    requires
        0 <= from,
    ensures
        find_from(s, pat, from) matches Some(p) ==> from <= p && occurs_at(s, p, pat) && forall|
            q: int,
        |
            from <= q < p ==> !occurs_at(s, q, pat),
        find_from(s, pat, from) is None ==> forall|q: int| from <= q ==> !occurs_at(s, q, pat),
    decreases s.len() + 1 - from,
{
    if from + pat.len() > s.len() {
    } else if !occurs_at(s, from, pat) {
        lemma_find_from_bounds(s, pat, from + 1);
    }
}

/// The first index at or after `from` where `pat` occurs in `s`.
pub fn find_exec(s: &[char], pat: &[char], from: usize) -> (r: Option<usize>)
    ensures
        r matches Some(p) ==> find_from(s@, pat@, from as int) == Some(p as int),
        r is None ==> find_from(s@, pat@, from as int) is None,
{
    let mut i: usize = from;
    while i <= s.len() && pat.len() <= s.len() - i
        invariant
            from <= i,
            find_from(s@, pat@, i as int) == find_from(s@, pat@, from as int),
        decreases s@.len() + 1 - i,
    {
        assert(pat@.len() == 0 ==> s@.subrange(i as int, i as int) =~= pat@);
        if matches_at(s, i, pat) {
            return Some(i);
        }
        i += 1;
    }
    None
}

// ---------------------------------------------------------------------------
// Decimal numbers
// ---------------------------------------------------------------------------

/// An ASCII decimal digit.
pub open spec fn is_digit(c: char) -> bool {
    '0' <= c && c <= '9'
}

/// The character of the decimal digit `d`.
pub open spec fn digit_char(d: nat) -> char {
    (d + 48) as char
}

/// The decimal representation of `n`, without sign or leading zeros.
pub open spec fn decimal(n: nat) -> Seq<char>
    decreases n,
{
    if n < 10 {
        seq![digit_char(n)]
    } else {
        decimal(n / 10).push(digit_char(n % 10))
    }
}

/// The value of a string of decimal digits.
pub open spec fn digits_value(d: Seq<char>) -> nat
    decreases d.len(),
{
    if d.len() == 0 {
        0
    } else {
        digits_value(d.drop_last()) * 10 + ((d.last() as int - 48) as nat)
    }
}

/// Every character is an ASCII decimal digit.
pub open spec fn all_digits(d: Seq<char>) -> bool {
    forall|i: int| 0 <= i < d.len() ==> is_digit(#[trigger] d[i])
}

/// What `str::parse::<usize>` gives for a nonempty string of ASCII digits;
/// `None` for anything else, and for a value that does not fit.
pub open spec fn parse_usize(d: Seq<char>) -> Option<usize> {
    if d.len() > 0 && all_digits(d) && digits_value(d) <= usize::MAX {
        Some(digits_value(d) as usize)
    } else {
        None
    }
}

/// A decimal representation is a nonempty digit string of the right value.
pub proof fn lemma_decimal(n: nat)
    ensures
        decimal(n).len() >= 1,
        all_digits(decimal(n)),
        digits_value(decimal(n)) == n,
    decreases n,
{
    assert(digit_char((n % 10) as nat) as int == (n % 10) + 48);
    let d = decimal(n);
    if n < 10 {
        assert(n % 10 == n);
        assert(d.drop_last() =~= Seq::<char>::empty());
        assert(digits_value(d) == digits_value(d.drop_last()) * 10 + ((d.last() as int - 48) as nat));
    } else {
        assert(n / 10 * 10 + n % 10 == n);
        lemma_decimal(n / 10);
        assert(d.drop_last() =~= decimal(n / 10));
        assert(digits_value(d) == digits_value(d.drop_last()) * 10 + ((d.last() as int - 48) as nat));
    }
}

/// Parsing the decimal representation of `n` gives `n`.
pub proof fn lemma_parse_decimal(n: usize)
    ensures
        parse_usize(decimal(n as nat)) == Some(n),
{
    lemma_decimal(n as nat);
}

proof fn lemma_digits_value_monotone(d: Seq<char>, i: int)
    requires
        0 <= i <= d.len(),
        all_digits(d),
    ensures
        digits_value(d.take(i)) <= digits_value(d),
    decreases d.len() - i,
{
    if i < d.len() {
        lemma_digits_value_monotone(d, i + 1);
        assert(d.take(i + 1).drop_last() =~= d.take(i));
        assert(is_digit(d[i]));
    } else {
        assert(d.take(i) =~= d);
    }
}

fn digit_exec(d: usize) -> (c: char)
    requires
        d < 10,
    ensures
        c == digit_char(d as nat),
{
    let b: u8 = d as u8 + 48;
    b as char
}

/// The decimal representation of `n`.
pub fn decimal_exec(n: usize) -> (v: Vec<char>)
    ensures
        v@ == decimal(n as nat),
    decreases n,
{
    if n < 10 {
        let mut v: Vec<char> = Vec::new();
        v.push(digit_exec(n));
        assert(v@ =~= decimal(n as nat));
        v
    } else {
        let mut v = decimal_exec(n / 10);
        v.push(digit_exec(n % 10));
        v
    }
}

/// `str::parse::<usize>` restricted to strings of ASCII digits.
pub fn parse_usize_exec(d: &[char]) -> (r: Option<usize>)
    ensures
        r == parse_usize(d@),
{
    if d.len() == 0 {
        return None;
    }
    let mut i: usize = 0;
    while i < d.len()
        invariant
            i <= d@.len(),
            forall|k: int| 0 <= k < i ==> is_digit(#[trigger] d@[k]),
        decreases d@.len() - i,
    {
        if !(d[i] >= '0' && d[i] <= '9') {
            return None;
        }
        i += 1;
    }
    assert(all_digits(d@));
    let mut v: usize = 0;
    let mut k: usize = 0;
    while k < d.len()
        invariant
            k <= d@.len(),
            all_digits(d@),
            v == digits_value(d@.take(k as int)),
        decreases d@.len() - k,
    {
        assert(d@.take(k + 1).drop_last() =~= d@.take(k as int));
        let digit: u32 = d[k] as u32 - 48;
        assert(is_digit(d@[k as int]));
        match v.checked_mul(10) {
            Some(t) => match t.checked_add(digit as usize) {
                Some(u) => {
                    v = u;
                },
                None => {
                    proof {
                        lemma_digits_value_monotone(d@, k + 1);
                    }
                    return None;
                },
            },
            None => {
                proof {
                    lemma_digits_value_monotone(d@, k + 1);
                }
                return None;
            },
        }
        k += 1;
    }
    assert(d@.take(d@.len() as int) =~= d@);
    Some(v)
}

} // verus!

verus! {

/// A copy of `v`.
pub fn clone_chars(v: &[char]) -> (r: Vec<char>)
    ensures
        r@ == v@,
{
    let mut r: Vec<char> = Vec::new();
    let mut i: usize = 0;
    while i < v.len()
        invariant
            i <= v@.len(),
            r@ == v@.take(i as int),
        decreases v@.len() - i,
    {
        r.push(v[i]);
        i += 1;
        assert(r@ =~= v@.take(i as int));
    }
    assert(v@.take(v@.len() as int) =~= v@);
    r
}

/// Appends the characters of `t` to `v`.
pub fn extend_chars(v: &mut Vec<char>, t: &[char])
    ensures
        final(v)@ == old(v)@ + t@,
{
    let mut i: usize = 0;
    while i < t.len()
        invariant
            i <= t@.len(),
            v@ == old(v)@ + t@.take(i as int),
        decreases t@.len() - i,
    {
        v.push(t[i]);
        i += 1;
        assert(v@ =~= old(v)@ + t@.take(i as int));
    }
    assert(t@.take(t@.len() as int) =~= t@);
}

/// `prefix`, the decimal representation of `n`, then `suffix`.
pub fn text_with_number(prefix: &str, n: usize, suffix: &str) -> (r: String)
    ensures
        r@ == prefix@ + decimal(n as nat) + suffix@,
{
    let mut v = chars_of(prefix);
    let d = decimal_exec(n);
    extend_chars(&mut v, d.as_slice());
    let t = chars_of(suffix);
    extend_chars(&mut v, t.as_slice());
    string_of(v.as_slice())
}

/// `prefix`, the characters `mid`, then `suffix`.
pub fn text_with_chars(prefix: &str, mid: &[char], suffix: &str) -> (r: String)
    ensures
        r@ == prefix@ + mid@ + suffix@,
{
    let mut v = chars_of(prefix);
    extend_chars(&mut v, mid);
    let t = chars_of(suffix);
    extend_chars(&mut v, t.as_slice());
    string_of(v.as_slice())
}

/// The characters of `s`, as a string.
pub fn text_of(s: &str) -> (r: String)
    ensures
        r@ == s@,
{
    let v = chars_of(s);
    string_of(v.as_slice())
}

} // verus!

verus! {

// ---------------------------------------------------------------------------
// UTF-8 lengths
// ---------------------------------------------------------------------------

/// The number of bytes UTF-8 takes for `c`.
pub open spec fn utf8_width(c: char) -> nat {
    if (c as u32) < 0x80 {
        1
    } else if (c as u32) < 0x800 {
        2
    } else if (c as u32) < 0x10000 {
        3
    } else {
        4
    }
}

/// The number of bytes UTF-8 takes for `s`: what `str::len` reports.
pub open spec fn utf8_len(s: Seq<char>) -> nat
    decreases s.len(),
{
    if s.len() == 0 {
        0
    } else {
        utf8_len(s.drop_last()) + utf8_width(s.last())
    }
}

/// The number of bytes UTF-8 takes for `c`.
pub fn utf8_width_exec(c: char) -> (w: usize)
    ensures
        w == utf8_width(c),
        1 <= w <= 4,
{
    let u: u32 = c as u32;
    if u < 0x80 {
        1
    } else if u < 0x800 {
        2
    } else if u < 0x10000 {
        3
    } else {
        4
    }
}

/// UTF-8 lengths add up over concatenation.
pub proof fn lemma_utf8_len_append(a: Seq<char>, b: Seq<char>)
    ensures
        utf8_len(a + b) == utf8_len(a) + utf8_len(b),
    decreases b.len(),
{
    if b.len() == 0 {
        assert(a + b =~= a);
    } else {
        lemma_utf8_len_append(a, b.drop_last());
        assert((a + b).drop_last() =~= a + b.drop_last());
    }
}

/// A prefix is no longer in UTF-8 than the whole.
pub proof fn lemma_utf8_len_take(s: Seq<char>, i: int)
    requires
        0 <= i <= s.len(),
    ensures
        utf8_len(s.take(i)) <= utf8_len(s),
{
    lemma_utf8_len_append(s.take(i), s.skip(i));
    assert(s.take(i) + s.skip(i) =~= s);
}

/// One character takes its own width.
pub proof fn lemma_utf8_len_single(c: char)
    ensures
        utf8_len(seq![c]) == utf8_width(c),
{
    let one = seq![c];
    assert(one.drop_last() =~= Seq::<char>::empty());
    assert(utf8_len(one.drop_last()) == 0);
    assert(one.last() == c);
}

/// `prefix`, two decimal numbers with `mid` between them, then `suffix`.
pub fn text_with_two_numbers(prefix: &str, a: usize, mid: &str, b: usize, suffix: &str) -> (r:
    String)
    ensures
        r@ == prefix@ + decimal(a as nat) + mid@ + decimal(b as nat) + suffix@,
{
    let mut v = chars_of(prefix);
    let d = decimal_exec(a);
    extend_chars(&mut v, d.as_slice());
    let m = chars_of(mid);
    extend_chars(&mut v, m.as_slice());
    let e = decimal_exec(b);
    extend_chars(&mut v, e.as_slice());
    let t = chars_of(suffix);
    extend_chars(&mut v, t.as_slice());
    string_of(v.as_slice())
}

} // verus!

verus! {

/// Finds `pat` at `p`, the first occurrence at or after `from`.
pub proof fn lemma_find_from_first(s: Seq<char>, pat: Seq<char>, from: int, p: int)
    requires
        0 <= from <= p,
        occurs_at(s, p, pat),
        forall|q: int| from <= q < p ==> !occurs_at(s, q, pat),
    ensures
        find_from(s, pat, from) == Some(p),
    decreases p - from,
{
    if from < p {
        lemma_find_from_first(s, pat, from + 1, p);
    }
}

/// No occurrence at or after `from`.
pub proof fn lemma_find_from_none(s: Seq<char>, pat: Seq<char>, from: int)
    requires
        0 <= from,
        forall|q: int| from <= q ==> !occurs_at(s, q, pat),
    ensures
        find_from(s, pat, from) is None,
    decreases s.len() + 1 - from,
{
    if from + pat.len() <= s.len() {
        lemma_find_from_none(s, pat, from + 1);
    }
}

/// The last index `p` with `pat` at `p` ending at or before `end`, as
/// `str::rfind` on `s[..end]` gives it for a nonempty pattern.
pub open spec fn rfind_before(s: Seq<char>, pat: Seq<char>, end: int) -> Option<int>
    decreases end,
{
    if end <= 0 || end < pat.len() {
        None
    } else if occurs_at(s, end - pat.len(), pat) {
        Some(end - pat.len())
    } else {
        rfind_before(s, pat, end - 1)
    }
}

/// A found occurrence is real and ends by `end`.
pub proof fn lemma_rfind_before_bounds(s: Seq<char>, pat: Seq<char>, end: int)
    ensures
        rfind_before(s, pat, end) matches Some(p) ==> 0 <= p && p + pat.len() <= end && occurs_at(
            s,
            p,
            pat,
        ),
    decreases end,
{
    if !(end <= 0 || end < pat.len()) && !occurs_at(s, end - pat.len(), pat) {
        lemma_rfind_before_bounds(s, pat, end - 1);
    }
}

/// Finds `pat` at `p`, the last occurrence that ends by `end`.
pub proof fn lemma_rfind_before_last(s: Seq<char>, pat: Seq<char>, end: int, p: int)
    requires
        pat.len() > 0,
        occurs_at(s, p, pat),
        p + pat.len() <= end,
        forall|q: int| p < q && q + pat.len() <= end ==> !occurs_at(s, q, pat),
    ensures
        rfind_before(s, pat, end) == Some(p),
    decreases end,
{
    if p + pat.len() < end {
        lemma_rfind_before_last(s, pat, end - 1, p);
    }
}

/// The last occurrence of `pat` in `s` that ends by `end`.
pub fn rfind_exec(s: &[char], pat: &[char], end: usize) -> (r: Option<usize>)
    requires
        end <= s@.len(),
    ensures
        match rfind_before(s@, pat@, end as int) {
            Some(p) => r == Some(p as usize),
            None => r is None,
        },
{
    let mut e: usize = end;
    while e > 0 && e >= pat.len()
        invariant
            e <= end <= s@.len(),
            rfind_before(s@, pat@, e as int) == rfind_before(s@, pat@, end as int),
        decreases e,
    {
        if matches_at(s, e - pat.len(), pat) {
            return Some(e - pat.len());
        }
        e -= 1;
    }
    None
}

/// UTF-8 length of the first `k` characters of `s` equals `b`: the byte `b`
/// is a character boundary of `s`, and `k` is the character count before it.
pub open spec fn chars_before_byte(s: Seq<char>, b: int) -> Option<int>
    decreases s.len(),
{
    if b == 0 {
        Some(0)
    } else if s.len() == 0 || b < utf8_width(s[0]) {
        None
    } else {
        match chars_before_byte(s.skip(1), b - utf8_width(s[0])) {
            Some(k) => Some(k + 1),
            None => None,
        }
    }
}

/// A boundary found is one: the characters before it take exactly `b` bytes.
pub proof fn lemma_chars_before_byte(s: Seq<char>, b: int)
    ensures
        chars_before_byte(s, b) matches Some(k) ==> 0 <= k <= s.len() && utf8_len(s.take(k)) == b,
    decreases s.len(),
{
    if b != 0 && s.len() > 0 && b >= utf8_width(s[0]) {
        lemma_chars_before_byte(s.skip(1), b - utf8_width(s[0]));
        if let Some(k) = chars_before_byte(s.skip(1), b - utf8_width(s[0])) {
            lemma_utf8_len_append(seq![s[0]], s.skip(1).take(k));
            assert(seq![s[0]] + s.skip(1).take(k) =~= s.take(k + 1));
            lemma_utf8_len_single(s[0]);
        }
    } else if b == 0 {
        assert(s.take(0) =~= Seq::<char>::empty());
    }
}

/// The number of characters of `s` before byte `b`, if `b` is a boundary.
pub fn chars_before_byte_exec(s: &[char], b: u128) -> (r: Option<usize>)
    ensures
        match chars_before_byte(s@, b as int) {
            Some(k) => r == Some(k as usize),
            None => r is None,
        },
{
    let mut j: usize = 0;
    let mut acc: u128 = 0;
    assert(s@.skip(0) =~= s@);
    while acc < b
        invariant
            j <= s@.len(),
            acc <= b,
            chars_before_byte(s@, b as int) == match chars_before_byte(s@.skip(j as int), b - acc) {
                Some(k) => Some(k + j),
                None => None::<int>,
            },
        decreases b - acc,
    {
        let ghost rest = s@.skip(j as int);
        if j >= s.len() {
            return None;
        }
        assert(rest[0] == s@[j as int]);
        let w = utf8_width_exec(s[j]) as u128;
        if b - acc < w {
            return None;
        }
        acc = acc + w;
        j += 1;
        assert(rest.skip(1) =~= s@.skip(j as int));
    }
    Some(j)
}

} // verus!

verus! {

/// No character takes more than four bytes.
pub proof fn lemma_utf8_len_bound(s: Seq<char>)
    ensures
        utf8_len(s) <= 4 * s.len(),
    decreases s.len(),
{
    if s.len() > 0 {
        lemma_utf8_len_bound(s.drop_last());
    }
}

/// Every character takes at least one byte.
pub proof fn lemma_utf8_len_at_least(s: Seq<char>)
    ensures
        utf8_len(s) >= s.len(),
    decreases s.len(),
{
    if s.len() > 0 {
        lemma_utf8_len_at_least(s.drop_last());
    }
}

/// The UTF-8 length of the first `k` characters of `s`.
pub fn prefix_bytes(s: &[char], k: usize) -> (b: u128)
    requires
        k <= s@.len(),
    ensures
        b == utf8_len(s@.take(k as int)),
        b <= 4 * (k as int),
{
    let mut j: usize = 0;
    let mut acc: u128 = 0;
    while j < k
        invariant
            j <= k <= s@.len(),
            k <= usize::MAX,
            acc == utf8_len(s@.take(j as int)),
        decreases k - j,
    {
        proof {
            lemma_utf8_len_bound(s@.take(j as int));
            assert(s@.take(j + 1).drop_last() =~= s@.take(j as int));
        }
        let w = utf8_width_exec(s[j]) as u128;
        acc = acc + w;
        j += 1;
    }
    proof {
        lemma_utf8_len_bound(s@.take(k as int));
    }
    acc
}

/// The characters of each string of `v`.
pub open spec fn strs_view(v: Seq<String>) -> Seq<Seq<char>> {
    Seq::new(v.len(), |i: int| v[i]@)
}

/// The characters of each string of the slice `v`.
pub fn str_slice_to_chars(v: &[String]) -> (r: Vec<Vec<char>>)
    ensures
        view_lines(r@) == strs_view(v@),
{
    let mut r: Vec<Vec<char>> = Vec::new();
    let mut i: usize = 0;
    while i < v.len()
        invariant
            i <= v@.len(),
            r@.len() == i,
            forall|k: int| 0 <= k < i ==> #[trigger] r@[k]@ == v@[k]@,
        decreases v@.len() - i,
    {
        r.push(chars_of(v[i].as_str()));
        i += 1;
    }
    assert(view_lines(r@) =~= strs_view(v@));
    r
}

} // verus!
