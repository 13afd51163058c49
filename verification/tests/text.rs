use cadran::text::{trim_str, white_space};

#[test]
fn white_space_matches_std_for_every_char() {
    for u in 0..=0x10FFFFu32 {
        if let Some(c) = char::from_u32(u) {
            assert_eq!(white_space(c), c.is_whitespace(), "U+{:04X}", u);
        }
    }
}

#[test]
fn trim_matches_std() {
    for s in ["", "   ", " a ", "\u{3000}x\u{00A0}", "\u{85}y\u{2028}", "a b", "\t\n z \r"] {
        assert_eq!(trim_str(s), s.trim());
    }
}
