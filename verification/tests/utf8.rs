use rewriter::utf8::{char_width, substring};

#[test]
fn width_of_a_character_by_its_first_byte() {
    for c in ['\0', 'a', '\n', '\u{7f}', '\u{80}', 'é', '\u{7ff}', '\u{800}', '€', '\u{ffff}', '\u{10000}', '😀', '\u{10ffff}'] {
        let mut buffer = [0u8; 4];
        let encoded = c.encode_utf8(&mut buffer);
        assert_eq!(char_width(encoded.as_bytes()[0]), c.len_utf8());
    }
}

#[test]
fn substring_between_character_boundaries() {
    let text = "aé€😀\nb";
    assert_eq!(substring(text, 0, 0), "");
    assert_eq!(substring(text, 0, 1), "a");
    assert_eq!(substring(text, 1, 3), "é");
    assert_eq!(substring(text, 3, 10), "€😀");
    assert_eq!(substring(text, 10, 12), "\nb");
    assert_eq!(substring(text, 12, 12), "");
    assert_eq!(substring(text, 0, 12), text);
}
