use timesfm::text::{
    comes_before, eq_ignore_ascii_case, find_headline, find_last, find_text, starts_with_char, trim,
};

#[test]
fn trimming_matches_the_standard_library() {
    let texts = [
        "",
        " ",
        "a",
        " a b ",
        "\t\r\n\u{b}\u{c}x\u{85}\u{a0}",
        "\u{1680}\u{2000}\u{200a}y\u{2028}\u{2029}\u{202f}\u{205f}\u{3000}",
        "\u{200b}z\u{200b}",
        "\u{feff}",
    ];
    for t in texts {
        assert_eq!(trim(t), t.trim());
        assert_eq!(trim(&trim(t)), t.trim());
    }
    for c in 0u32..0x3100 {
        if let Some(ch) = char::from_u32(c) {
            assert_eq!(timesfm::text::is_white(ch), ch.is_whitespace(), "{:x}", c);
        }
    }
}

#[test]
fn cases_match_the_standard_library() {
    let words = ["scaling", "Scaling", "SCALING", "scalin", "\u{e9}", "\u{c9}", "k", "\u{212a}"];
    for a in words {
        for b in words {
            assert_eq!(eq_ignore_ascii_case(a, b), a.eq_ignore_ascii_case(b));
        }
    }
}

#[test]
fn order_matches_the_standard_library() {
    let words = ["", "a", "ab", "b", "B", "a\u{e9}", "\u{10ffff}", "\u{ffff}", "alert", "alerts"];
    for a in words {
        for b in words {
            assert_eq!(comes_before(a, b), a < b, "{} {}", a, b);
        }
    }
}

#[test]
fn searches_match_the_standard_library() {
    let text: Vec<char> = "ab``` x ```ab".chars().collect();
    assert_eq!(find_text(&text, "```"), Some(2));
    assert_eq!(find_text(&text, "zz"), None);
    assert_eq!(find_text(&text, ""), Some(0));
    assert_eq!(find_text(&Vec::new(), ""), Some(0));
    assert_eq!(find_text(&vec!['a'], "ab"), None);
    assert_eq!(find_last(&text, 'b'), Some(12));
    assert_eq!(find_last(&text, 'q'), None);
    assert!(starts_with_char("{x", '{'));
    assert!(!starts_with_char("", '{'));
    for t in ["", "\n\n", "a\nb", "\r\n x \r\ny", "  \n\t\n z"] {
        let expected = t.lines().find(|l| !l.trim().is_empty()).map(|l| l.trim().to_string());
        assert_eq!(find_headline(t), expected);
    }
}
