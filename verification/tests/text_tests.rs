use habit_tracker::text::{is_whitespace, trim};

#[test]
fn whitespace_matches_std() {
    for u in 0u32..=0x10FFFF {
        if let Some(c) = char::from_u32(u) {
            assert_eq!(is_whitespace(c), c.is_whitespace(), "U+{:04X}", u);
        }
    }
}

#[test]
fn trim_matches_std() {
    let cases = [
        "",
        " ",
        "abc",
        "  abc  ",
        "\t\n a b \r\n",
        "\u{3000}\u{A0}x\u{2028}",
        "\u{85}é ü\u{202F}",
        "  ",
        "a",
    ];
    for s in cases.iter() {
        assert_eq!(trim(s), s.trim());
    }
}

#[test]
fn trim_is_idempotent() {
    let s = " \u{2003} Read  \t";
    assert_eq!(trim(s), "Read");
    assert_eq!(trim(trim(s)), trim(s));
}
