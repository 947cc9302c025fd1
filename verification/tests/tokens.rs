use token_compress_cli::tokens::{char_classes, is_cjk};

/// The estimate the command-line front end prints: about 4 ASCII, 1.8 CJK or
/// 3 other characters per token, rounded up.
fn est_tokens(s: &str) -> u64 {
    let (ascii, cjk, other) = char_classes(s);
    let est = ascii as f64 / 4.0 + cjk as f64 / 1.8 + other as f64 / 3.0;
    est.ceil() as u64
}

#[test]
fn sane_estimates() {
    assert_eq!(est_tokens(""), 0);
    assert_eq!(est_tokens("abcd"), 1);
    assert!(est_tokens("你好世界") >= 2);
    assert!(est_tokens(&"x".repeat(400)) == 100);
}

#[test]
fn char_classes_counts() {
    assert_eq!(char_classes(""), (0, 0, 0));
    assert_eq!(char_classes("ab 你好 é⟦"), (4, 2, 2));
    assert_eq!(char_classes("こんにちは안녕"), (0, 7, 0));
}

#[test]
fn cjk_ranges() {
    assert!(is_cjk(0x3040));
    assert!(is_cjk(0x30FF));
    assert!(!is_cjk(0x3100));
    assert!(is_cjk(0x4E00));
    assert!(is_cjk(0xAC00));
    assert!(!is_cjk(0xD7B0));
    assert!(is_cjk(0x2FA1F));
    assert!(!is_cjk(0x2FA20));
    assert!(!is_cjk('a' as u32));
}
