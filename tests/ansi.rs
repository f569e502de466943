use console::ansi::{Matches, State};
use console::parsed::ParsedStyledObjectIterator;
use console::{strip_ansi_codes, style, AnsiCodeIterator, Style};
use regex::Regex;
use std::borrow::Cow;

fn matched_strs(s: &str) -> Vec<&str> {
    let mut it = Matches::new(s);
    let mut out = Vec::new();
    while let Some(m) = it.next() {
        out.push(m.as_str());
    }
    out
}

fn byte_offset(s: &str, char_idx: usize) -> usize {
    s.char_indices().nth(char_idx).map(|(b, _)| b).unwrap_or(s.len())
}

fn match_spans(s: &str) -> Vec<(usize, usize)> {
    let mut it = Matches::new(s);
    let mut out = Vec::new();
    while let Some(m) = it.next() {
        out.push((byte_offset(s, m.start), byte_offset(s, m.end)));
    }
    out
}

fn escape_sequence_pattern() -> Regex {
    Regex::new(r"[\x1b\x9b]([()][012AB]|[\[()#;?]*(?:[0-9]{1,4}(?:;[0-9]{0,4})*)?[0-9A-PRZcf-nqry=><])")
        .unwrap()
}

fn segments_of(s: &str) -> Vec<(&str, bool)> {
    let mut it = AnsiCodeIterator::new(s);
    let mut out = Vec::new();
    while let Some(item) = it.next() {
        out.push(item);
    }
    out
}

fn parsed(s: &str) -> Vec<(String, Option<Style>)> {
    let mut it = ParsedStyledObjectIterator::new(s);
    let mut out = Vec::new();
    while let Some(item) = it.next() {
        out.push(item);
    }
    out
}

fn check_all_strings_of_len(re: &Regex, len: usize, chunk: &mut Vec<char>) {
    const POSSIBLE: [char; 9] = [' ', '\u{1b}', '\u{9b}', '(', '0', '[', ';', '3', 'C'];
    if len == 0 {
        let s: String = chunk.iter().collect();
        let old: Vec<(usize, usize)> = re.find_iter(&s).map(|m| (m.start(), m.end())).collect();
        assert_eq!(old, match_spans(&s), "{:?}", s);
        return;
    }
    for c in POSSIBLE {
        chunk.push(c);
        check_all_strings_of_len(re, len - 1, chunk);
        chunk.pop();
    }
}

#[test]
fn dfa_matches_regex_on_small_strings() {
    let re = escape_sequence_pattern();
    for str_len in 0..=6 {
        check_all_strings_of_len(&re, str_len, &mut Vec::with_capacity(str_len));
    }
}

#[test]
fn dfa_matches_regex_on_longer_strings() {
    let re = escape_sequence_pattern();
    let pieces = [
        "\x1b[31m", "\x1b[1;32;45m", "\u{9b}0J", "x", "\x1b(B", "\x1b)0", "\x1b[?25h", "🐶", "12",
        ";", "\x1b", "\x1b[38;5;123m", "\x1b123456", "é", "\x1b[;;m", "\x1b1;12345;1m",
    ];
    let mut seed: u64 = 7;
    for _ in 0..2000 {
        let mut s = String::new();
        for _ in 0..8 {
            seed = seed.wrapping_mul(6364136223846793005).wrapping_add(1442695040888963407);
            s.push_str(pieces[(seed >> 33) as usize % pieces.len()]);
        }
        let old: Vec<(usize, usize)> = re.find_iter(&s).map(|m| (m.start(), m.end())).collect();
        assert_eq!(old, match_spans(&s), "{:?}", s);
    }
}

#[test]
fn state_machine() {
    let ansi_code = "\x1b)B";
    let mut state = State::default();
    assert!(!state.is_final());

    for c in ansi_code.chars() {
        state.transition(c);
    }
    assert!(state.is_final());

    state.transition('A');
    assert!(state.is_trapped());
}

#[test]
fn back_to_back_entry_char() {
    let s = "\x1b\x1bf";
    let matches = matched_strs(s);
    assert_eq!(&["\x1bf"], matches.as_slice());
}

#[test]
fn early_paren_can_use_many_chars() {
    let s = "\x1b(C";
    let matches = matched_strs(s);
    assert_eq!(&[s], matches.as_slice());
}

#[test]
fn long_run_of_digits() {
    let s = "\u{1b}00000";
    let matches = matched_strs(s);
    assert_eq!(&[s], matches.as_slice());
}

#[test]
fn digits_past_the_fifth_are_left_out() {
    assert_eq!(matched_strs("\u{1b}000000"), vec!["\u{1b}00000"]);
}

#[test]
fn incomplete_sequence_at_end_is_text() {
    assert_eq!(matched_strs("abc\x1b[31"), vec!["\x1b[31"]);
    assert!(matched_strs("abc\x1b[").is_empty());
    assert_eq!(segments_of("abc\x1b["), vec![("abc\x1b[", false)]);
}

#[test]
fn test_ansi_iter_re_vt100() {
    let s = "\x1b(0lpq\x1b)Benglish";
    let mut iter = AnsiCodeIterator::new(s);
    assert_eq!(iter.next(), Some(("\x1b(0", true)));
    assert_eq!(iter.next(), Some(("lpq", false)));
    assert_eq!(iter.next(), Some(("\x1b)B", true)));
    assert_eq!(iter.next(), Some(("english", false)));
}

#[test]
fn test_ansi_iter_re() {
    let s = format!("Hello {}!", style("World").red().force_styling(true).render(false));
    let mut iter = AnsiCodeIterator::new(&s);
    assert_eq!(iter.next(), Some(("Hello ", false)));
    assert_eq!(iter.current_slice(), "Hello ");
    assert_eq!(iter.rest_slice(), "\x1b[31mWorld\x1b[0m!");
    assert_eq!(iter.next(), Some(("\x1b[31m", true)));
    assert_eq!(iter.current_slice(), "Hello \x1b[31m");
    assert_eq!(iter.rest_slice(), "World\x1b[0m!");
    assert_eq!(iter.next(), Some(("World", false)));
    assert_eq!(iter.current_slice(), "Hello \x1b[31mWorld");
    assert_eq!(iter.rest_slice(), "\x1b[0m!");
    assert_eq!(iter.next(), Some(("\x1b[0m", true)));
    assert_eq!(iter.current_slice(), "Hello \x1b[31mWorld\x1b[0m");
    assert_eq!(iter.rest_slice(), "!");
    assert_eq!(iter.next(), Some(("!", false)));
    assert_eq!(iter.current_slice(), "Hello \x1b[31mWorld\x1b[0m!");
    assert_eq!(iter.rest_slice(), "");
    assert_eq!(iter.next(), None);
}

#[test]
fn test_ansi_iter_re_on_multi() {
    let s = style("a").red().bold().force_styling(true).render(false);
    let mut iter = AnsiCodeIterator::new(&s);
    assert_eq!(iter.next(), Some(("\x1b[31m", true)));
    assert_eq!(iter.current_slice(), "\x1b[31m");
    assert_eq!(iter.rest_slice(), "\x1b[1ma\x1b[0m");
    assert_eq!(iter.next(), Some(("\x1b[1m", true)));
    assert_eq!(iter.current_slice(), "\x1b[31m\x1b[1m");
    assert_eq!(iter.rest_slice(), "a\x1b[0m");
    assert_eq!(iter.next(), Some(("a", false)));
    assert_eq!(iter.current_slice(), "\x1b[31m\x1b[1ma");
    assert_eq!(iter.rest_slice(), "\x1b[0m");
    assert_eq!(iter.next(), Some(("\x1b[0m", true)));
    assert_eq!(iter.current_slice(), "\x1b[31m\x1b[1ma\x1b[0m");
    assert_eq!(iter.rest_slice(), "");
    assert_eq!(iter.next(), None);
}

#[test]
fn segments_join_back_to_the_text() {
    for s in ["", "plain", "\x1b[1m", "a\x1b[1mb\x1b[0m", "\x1b\x1b[0m[0m", "🐶\u{9b}2Jx"] {
        let joined: String = segments_of(s).iter().map(|(t, _)| *t).collect();
        assert_eq!(joined, s);
    }
}

#[test]
fn segments_alternate_and_are_never_empty() {
    let segs = segments_of("\x1b[1m\x1b[2mab\x1b[0m");
    assert_eq!(segs, vec![("\x1b[1m", true), ("\x1b[2m", true), ("ab", false), ("\x1b[0m", true)]);
    assert!(segs.iter().all(|(t, _)| !t.is_empty()));
}

#[test]
fn strip_removes_codes() {
    let stripped = strip_ansi_codes("a\x1b[31mb\x1b[0mc");
    assert_eq!(stripped, "abc");
    assert!(matches!(stripped, Cow::Owned(_)));
}

#[test]
fn strip_borrows_plain_text() {
    let stripped = strip_ansi_codes("no codes here");
    assert_eq!(stripped, "no codes here");
    assert!(matches!(stripped, Cow::Borrowed(_)));
}

#[test]
fn strip_twice_equals_once() {
    let s = "x\x1b[1my\x1b[0m";
    let once = strip_ansi_codes(s).into_owned();
    let twice = strip_ansi_codes(&once).into_owned();
    assert_eq!(once, "xy");
    assert_eq!(twice, once);
}

#[test]
fn strip_can_join_a_new_code() {
    let once = strip_ansi_codes("\x1b\x1b[0m[0m").into_owned();
    assert_eq!(once, "\x1b[0m");
    assert_eq!(strip_ansi_codes(&once), "");
}

#[test]
fn test_parse_to_style_for_multi_text() {
    let style_origin1 = Style::new()
        .force_styling(true)
        .red()
        .on_blue()
        .on_bright()
        .bold()
        .italic();
    let style_origin2 = Style::new()
        .force_styling(true)
        .blue()
        .on_yellow()
        .on_bright()
        .blink()
        .italic();

    let ansi_string = style_origin1.apply_to("hello world").render(false);
    let style_parsed = parsed(ansi_string.as_str());
    let plain_texts = style_parsed.iter().map(|x| &x.0).collect::<Vec<_>>();
    let styles = style_parsed.iter().map(|x| x.1.as_ref()).collect::<Vec<_>>();
    assert_eq!(vec!["hello world"], plain_texts);
    assert_eq!(vec![Some(&style_origin1)], styles);

    let ansi_string = format!(
        "{} {}",
        style_origin1.apply_to("hello").render(false),
        style_origin2.apply_to("world").render(false)
    );
    let style_parsed = parsed(ansi_string.as_str());
    let plain_texts = style_parsed.iter().map(|x| &x.0).collect::<Vec<_>>();
    let styles = style_parsed.iter().map(|x| x.1.as_ref()).collect::<Vec<_>>();
    assert_eq!(vec!["hello", " ", "world"], plain_texts);
    assert_eq!(vec![Some(&style_origin1), None, Some(&style_origin2)], styles);

    let ansi_string = format!("hello {}", style_origin2.apply_to("world").render(false));
    let style_parsed = parsed(ansi_string.as_str());
    let plain_texts = style_parsed.iter().map(|x| &x.0).collect::<Vec<_>>();
    let styles = style_parsed.iter().map(|x| x.1.as_ref()).collect::<Vec<_>>();
    assert_eq!(vec!["hello ", "world"], plain_texts);
    assert_eq!(vec![None, Some(&style_origin2)], styles);

    let ansi_string = format!("{} world", style_origin1.apply_to("hello").render(false));
    let style_parsed = parsed(ansi_string.as_str());
    let plain_texts = style_parsed.iter().map(|x| &x.0).collect::<Vec<_>>();
    let styles = style_parsed.iter().map(|x| x.1.as_ref()).collect::<Vec<_>>();
    assert_eq!(vec!["hello", " world"], plain_texts);
    assert_eq!(vec![Some(&style_origin1), None], styles);

    let ansi_string = "hello world";
    let style_parsed = parsed(ansi_string);
    let plain_texts = style_parsed.iter().map(|x| &x.0).collect::<Vec<_>>();
    let styles = style_parsed.iter().map(|x| x.1.as_ref()).collect::<Vec<_>>();
    assert_eq!(vec!["hello world"], plain_texts);
    assert_eq!(vec![None], styles);
}

#[test]
fn parsing_reads_palette_and_bright_colors() {
    let s = Style::new().color256(123).on_color256(7).force_styling(true);
    let items = parsed(&s.apply_to("x").render(false));
    assert_eq!(items.len(), 1);
    assert_eq!(items[0].0, "x");
    let st = items[0].1.unwrap();
    assert_eq!(st.bg, Some(console::Color::White));
    assert_eq!(st.force, Some(true));
    assert_eq!(st.fg, None);
}
