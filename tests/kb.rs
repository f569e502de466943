use console::{keys_to_utf8, Key};

#[test]
fn test_keys_to_utf8() {
    let keys = vec![
        Key::Char('H'),
        Key::Char('e'),
        Key::Char('l'),
        Key::Char('l'),
        Key::Char('o'),
        Key::Enter,
        Key::Char('W'),
        Key::Char('o'),
        Key::Char('r'),
        Key::Char('l'),
        Key::Char('d'),
        Key::Backspace,
    ];
    let result = keys_to_utf8(&keys);
    assert_eq!(result, "Hello\nWorl");
}

#[test]
fn backspace_on_empty_text_does_nothing() {
    assert_eq!(keys_to_utf8(&[Key::Backspace, Key::Char('a'), Key::Backspace, Key::Backspace]), "");
    assert_eq!(keys_to_utf8(&[]), "");
}

use console::kb::{key_from_byte, key_from_escape, key_from_utf8, utf8_extra_bytes};
use console::term::{colors_on_by_default, is_color_terminal, lang_wants_emoji, trim_line_end};

#[test]
fn escape_sequences_to_keys() {
    assert_eq!(key_from_escape(&vec![], true), Some(Key::Escape));
    assert_eq!(key_from_escape(&vec![], false), None);
    assert_eq!(key_from_escape(&vec!['['], false), None);
    assert_eq!(key_from_escape(&vec!['[', 'A'], false), Some(Key::ArrowUp));
    assert_eq!(key_from_escape(&vec!['[', 'Z'], false), Some(Key::BackTab));
    assert_eq!(key_from_escape(&vec!['[', '3'], false), None);
    assert_eq!(key_from_escape(&vec!['[', '3', '~'], false), Some(Key::Del));
    assert_eq!(key_from_escape(&vec!['[', '7', '~'], false), Some(Key::Home));
    assert_eq!(key_from_escape(&vec!['[', '9', '~'], false), Some(Key::UnknownEscSeq(vec!['[', '9', '~'])));
    assert_eq!(key_from_escape(&vec!['[', '3', 'x'], false), Some(Key::UnknownEscSeq(vec!['[', '3', 'x'])));
    assert_eq!(key_from_escape(&vec!['[', '3'], true), Some(Key::UnknownEscSeq(vec!['[', '3'])));
    assert_eq!(key_from_escape(&vec!['['], true), Some(Key::UnknownEscSeq(vec!['['])));
    assert_eq!(key_from_escape(&vec!['O'], false), Some(Key::UnknownEscSeq(vec!['O'])));
}

#[test]
fn single_bytes_to_keys() {
    assert_eq!(key_from_byte(b'\n'), Key::Enter);
    assert_eq!(key_from_byte(b'\r'), Key::Enter);
    assert_eq!(key_from_byte(0x7f), Key::Backspace);
    assert_eq!(key_from_byte(0x08), Key::Backspace);
    assert_eq!(key_from_byte(b'\t'), Key::Tab);
    assert_eq!(key_from_byte(0x01), Key::Home);
    assert_eq!(key_from_byte(0x05), Key::End);
    assert_eq!(key_from_byte(b'q'), Key::Char('q'));
    assert_eq!(utf8_extra_bytes(b'q'), 0);
    assert_eq!(utf8_extra_bytes(0xc3), 1);
    assert_eq!(utf8_extra_bytes(0xe3), 2);
    assert_eq!(utf8_extra_bytes(0xf0), 3);
    assert_eq!(utf8_extra_bytes(0x80), 0);
}

#[test]
fn utf8_bytes_to_keys() {
    assert_eq!(key_from_utf8("é".as_bytes()), Key::Char('é'));
    assert_eq!(key_from_utf8("🐶".as_bytes()), Key::Char('🐶'));
    assert_eq!(key_from_utf8(&[0xc3]), Key::Unknown);
    assert_eq!(key_from_utf8(&[]), Key::Unknown);
}

#[test]
fn terminal_color_decisions() {
    assert!(is_color_terminal(true, false, Some("xterm-256color")));
    assert!(!is_color_terminal(true, false, Some("dumb")));
    assert!(!is_color_terminal(true, true, Some("xterm")));
    assert!(!is_color_terminal(false, false, Some("xterm")));
    assert!(!is_color_terminal(true, false, None));
    assert!(colors_on_by_default(true, None, None));
    assert!(!colors_on_by_default(true, Some("0"), None));
    assert!(colors_on_by_default(false, None, Some("1")));
    assert!(!colors_on_by_default(false, Some("1"), Some("0")));
}

#[test]
fn line_ends_are_trimmed() {
    assert_eq!(trim_line_end("abc\r\n"), "abc");
    assert_eq!(trim_line_end("abc\n\n"), "abc");
    assert_eq!(trim_line_end("a\nb"), "a\nb");
    assert_eq!(trim_line_end("\r\n"), "");
}

#[test]
fn locale_and_emoji() {
    assert!(lang_wants_emoji(Some("en_US.utf-8")));
    assert!(lang_wants_emoji(Some("de_DE.UTF-8")));
    assert!(!lang_wants_emoji(Some("C")));
    assert!(!lang_wants_emoji(None));
}
