use atari_8bit_tools::text::{white_space, chars_of, string_of, split_chars, trimmed, Blank};

#[test]
fn white_space_agrees_with_std() {
    for c in '\0'..=char::MAX {
        assert_eq!(white_space(c), c.is_whitespace(), "{:?}", c);
    }
}

#[test]
fn trimmed_matches_str_trim() {
    let s: Vec<char> = " \u{3000}\tab c\u{A0}\r\n".chars().collect();
    let t = trimmed(&s, 0, s.len(), Blank::Unicode);
    assert_eq!(t.iter().collect::<String>(), " \u{3000}\tab c\u{A0}\r\n".trim());
    let a = trimmed(&s, 0, s.len(), Blank::Ascii);
    assert_eq!(a.iter().collect::<String>(), "\u{3000}\tab c\u{A0}");
}

#[test]
fn split_chars_matches_str_split() {
    for text in ["", "a", "a.b", ".", "a..b.", "..."] {
        let cs = chars_of(text);
        let parts = split_chars(&cs, '.');
        let expected: Vec<Vec<char>> = text.split('.').map(|p| p.chars().collect()).collect();
        assert_eq!(parts, expected);
    }
}

#[test]
fn string_of_round_trips() {
    let s = "héllo, wörld";
    assert_eq!(string_of(&chars_of(s)), s);
}
