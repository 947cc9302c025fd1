//! Character classes for the heuristic token estimate.
//!
//! The estimate itself (about 4 ASCII characters, 1.8 CJK characters or 3
//! other characters per token, rounded up) is floating-point arithmetic and
//! is computed by the command-line front end from the counts made here.

use vstd::prelude::*;
use crate::text::chars_of;

verus! {

/// The code point lies in a CJK block: kana, CJK extension A, CJK unified
/// ideographs, Hangul syllables, CJK compatibility ideographs, or the
/// supplementary CJK planes (extension B through the compatibility
/// supplement).
pub open spec fn cjk_code_point(cp: u32) -> bool {
    (0x3040 <= cp <= 0x30FF) || (0x3400 <= cp <= 0x4DBF) || (0x4E00 <= cp <= 0x9FFF) || (0xAC00
        <= cp <= 0xD7AF) || (0xF900 <= cp <= 0xFAFF) || (0x20000 <= cp <= 0x2FA1F)
}

/// Whether the code point is CJK.
pub fn is_cjk(cp: u32) -> (r: bool)
    ensures
        r == cjk_code_point(cp),
{
    (0x3040 <= cp && cp <= 0x30FF) || (0x3400 <= cp && cp <= 0x4DBF) || (0x4E00 <= cp && cp
        <= 0x9FFF) || (0xAC00 <= cp && cp <= 0xD7AF) || (0xF900 <= cp && cp <= 0xFAFF) || (0x20000
        <= cp && cp <= 0x2FA1F)
}

/// The class of a character: 0 for ASCII, 1 for CJK, 2 for anything else.
pub open spec fn char_class(c: char) -> int {
    if (c as u32) < 128 {
        0
    } else if cjk_code_point(c as u32) {
        1
    } else {
        2
    }
}

/// The number of characters of `s` in class `k`.
pub open spec fn class_count(s: Seq<char>, k: int) -> nat
    decreases s.len(),
{
    if s.len() == 0 {
        0
    } else {
        class_count(s.drop_last(), k) + if char_class(s.last()) == k {
            1nat
        } else {
            0nat
        }
    }
}

proof fn lemma_class_count_bound(s: Seq<char>, k: int)
    ensures
        class_count(s, k) <= s.len(),
    decreases s.len(),
{
    if s.len() > 0 {
        lemma_class_count_bound(s.drop_last(), k);
    }
}

/// The numbers of ASCII, CJK and other characters of `s`.
pub fn char_classes(s: &str) -> (r: (u64, u64, u64))
    ensures
        r.0 == class_count(s@, 0),
        r.1 == class_count(s@, 1),
        r.2 == class_count(s@, 2),
{
    let v = chars_of(s);
    let mut ascii: usize = 0;
    let mut cjk: usize = 0;
    let mut other: usize = 0;
    let mut i: usize = 0;
    while i < v.len()
        invariant
            i <= v@.len(),
            ascii == class_count(v@.take(i as int), 0),
            cjk == class_count(v@.take(i as int), 1),
            other == class_count(v@.take(i as int), 2),
        decreases v@.len() - i,
    {
        let ghost pre = v@.take(i as int);
        let ghost cur = v@.take(i + 1);
        assert(cur.drop_last() =~= pre);
        proof {
            lemma_class_count_bound(pre, 0);
            lemma_class_count_bound(pre, 1);
            lemma_class_count_bound(pre, 2);
        }
        let cp = v[i] as u32;
        if cp < 128 {
            ascii += 1;
        } else if is_cjk(cp) {
            cjk += 1;
        } else {
            other += 1;
        }
        i += 1;
    }
    assert(v@.take(v@.len() as int) =~= s@);
    (ascii as u64, cjk as u64, other as u64)
}

/// The classes are decided by the code point alone: ASCII below 128; CJK for
/// the kana (U+3040..=U+30FF), CJK extension A (U+3400..=U+4DBF), CJK unified
/// ideographs (U+4E00..=U+9FFF), Hangul syllables (U+AC00..=U+D7AF), CJK
/// compatibility ideographs (U+F900..=U+FAFF) and the supplementary CJK
/// planes (U+20000..=U+2FA1F); everything else is other.
pub proof fn lemma_char_class_blocks(c: char)
    ensures
        char_class(c) == 0 <==> (c as u32) < 128,
        char_class(c) == 1 <==> ((c as u32) >= 0x3040 && (c as u32) <= 0x30FF) || ((c as u32)
            >= 0x3400 && (c as u32) <= 0x4DBF) || ((c as u32) >= 0x4E00 && (c as u32) <= 0x9FFF)
            || ((c as u32) >= 0xAC00 && (c as u32) <= 0xD7AF) || ((c as u32) >= 0xF900 && (c as u32)
            <= 0xFAFF) || ((c as u32) >= 0x20000 && (c as u32) <= 0x2FA1F),
        0 <= char_class(c) <= 2,
{
}

/// Every CJK unified ideograph (U+4E00..=U+9FFF) counts as CJK.
pub proof fn lemma_unified_ideographs_are_cjk(c: char)
    requires
        0x4E00 <= (c as u32) <= 0x9FFF,
    ensures
        char_class(c) == 1,
{
}

/// Every character falls in exactly one class: the three counts add up to the
/// length.
pub proof fn lemma_class_counts_total(s: Seq<char>)
    ensures
        class_count(s, 0) + class_count(s, 1) + class_count(s, 2) == s.len(),
    decreases s.len(),
{
    if s.len() > 0 {
        lemma_class_counts_total(s.drop_last());
    }
}

} // verus!
