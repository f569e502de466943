use console::{measure_text_width, pad_str, pad_str_with, slice_str, style, truncate_str, Alignment};
use std::borrow::Cow;

#[test]
fn test_text_width() {
    let s = style("foo")
        .red()
        .on_black()
        .bold()
        .force_styling(true)
        .render(false);

    assert_eq!(measure_text_width(&s), 3);

    let s = style("🐶 <3").red().force_styling(true).render(false);

    assert_eq!(measure_text_width(&s), 5);
}

#[test]
fn test_truncate_str() {
    let s = format!("foo {}", style("bar").red().force_styling(true).render(false));
    assert_eq!(
        &truncate_str(&s, 5, ""),
        &format!("foo {}", style("b").red().force_styling(true).render(false))
    );
    let s = format!("foo {}", style("bar").red().force_styling(true).render(false));
    assert_eq!(
        &truncate_str(&s, 5, "!"),
        &format!("foo {}", style("!").red().force_styling(true).render(false))
    );
    let s = format!("foo {} baz", style("bar").red().force_styling(true).render(false));
    assert_eq!(
        &truncate_str(&s, 10, "..."),
        &format!("foo {}...", style("bar").red().force_styling(true).render(false))
    );
    let s = format!("foo {}", style("バー").red().force_styling(true).render(false));
    assert_eq!(
        &truncate_str(&s, 5, ""),
        &format!("foo {}", style("").red().force_styling(true).render(false))
    );
    let s = format!("foo {}", style("バー").red().force_styling(true).render(false));
    assert_eq!(
        &truncate_str(&s, 6, ""),
        &format!("foo {}", style("バ").red().force_styling(true).render(false))
    );
    let s = format!("foo {}", style("バー").red().force_styling(true).render(false));
    assert_eq!(
        &truncate_str(&s, 2, "!!!"),
        &format!("!!!{}", style("").red().force_styling(true).render(false))
    );
}

#[test]
fn test_slice_ansi_str() {
    // 🐶 is two columns wide.
    let test_str = "Hello\x1b[31m🐶\x1b[1m🐶\x1b[0m world!";
    assert_eq!(slice_str(test_str, "", 0..test_str.len(), ""), test_str);

    assert_eq!(
        slice_str(test_str, ">>>", 0..test_str.len(), "<<<"),
        format!(">>>{test_str}<<<"),
    );

    assert_eq!(measure_text_width(test_str), 16);

    assert_eq!(
        slice_str(test_str, "", 5..5, ""),
        "\u{1b}[31m\u{1b}[1m\u{1b}[0m"
    );

    assert_eq!(
        slice_str(test_str, "", 0..5, ""),
        "Hello\x1b[31m\x1b[1m\x1b[0m"
    );

    assert_eq!(
        slice_str(test_str, "", 0..6, ""),
        "Hello\x1b[31m\x1b[1m\x1b[0m"
    );

    assert_eq!(
        slice_str(test_str, "", 0..7, ""),
        "Hello\x1b[31m🐶\x1b[1m\x1b[0m"
    );

    assert_eq!(
        slice_str(test_str, "", 4..9, ""),
        "o\x1b[31m🐶\x1b[1m🐶\x1b[0m"
    );

    assert_eq!(
        slice_str(test_str, "", 7..21, ""),
        "\x1b[31m\x1b[1m🐶\x1b[0m world!"
    );

    assert_eq!(
        slice_str(test_str, ">>>", 7..21, "<<<"),
        "\x1b[31m>>>\x1b[1m🐶\x1b[0m world!<<<"
    );
}

#[test]
fn test_truncate_str_no_ansi() {
    assert_eq!(&truncate_str("foo bar", 7, "!"), "foo bar");
    assert_eq!(&truncate_str("foo bar", 5, ""), "foo b");
    assert_eq!(&truncate_str("foo bar", 5, "!"), "foo !");
    assert_eq!(&truncate_str("foo bar baz", 10, "..."), "foo bar...");
    assert_eq!(&truncate_str("foo bar", 0, ""), "");
    assert_eq!(&truncate_str("foo bar", 0, "!"), "!");
    assert_eq!(&truncate_str("foo bar", 2, "!!!"), "!!!");
    assert_eq!(&truncate_str("ab", 2, "!!!"), "ab");
}

#[test]
fn test_pad_str() {
    assert_eq!(pad_str("foo", 7, Alignment::Center, None), "  foo  ");
    assert_eq!(pad_str("foo", 7, Alignment::Left, None), "foo    ");
    assert_eq!(pad_str("foo", 7, Alignment::Right, None), "    foo");
    assert_eq!(pad_str("foo", 3, Alignment::Left, None), "foo");
    assert_eq!(pad_str("foobar", 3, Alignment::Left, None), "foobar");
    assert_eq!(pad_str("foobar", 3, Alignment::Left, Some("")), "foo");
    assert_eq!(
        pad_str("foobarbaz", 6, Alignment::Left, Some("...")),
        "foo..."
    );
}

#[test]
fn test_pad_str_with() {
    assert_eq!(
        pad_str_with("foo", 7, Alignment::Center, None, '#'),
        "##foo##"
    );
    assert_eq!(
        pad_str_with("foo", 7, Alignment::Left, None, '#'),
        "foo####"
    );
    assert_eq!(
        pad_str_with("foo", 7, Alignment::Right, None, '#'),
        "####foo"
    );
    assert_eq!(pad_str_with("foo", 3, Alignment::Left, None, '#'), "foo");
    assert_eq!(
        pad_str_with("foobar", 3, Alignment::Left, None, '#'),
        "foobar"
    );
    assert_eq!(
        pad_str_with("foobar", 3, Alignment::Left, Some(""), '#'),
        "foo"
    );
    assert_eq!(
        pad_str_with("foobarbaz", 6, Alignment::Left, Some("..."), '#'),
        "foo..."
    );
}

#[test]
fn center_puts_the_odd_column_on_the_right() {
    assert_eq!(pad_str("ab", 5, Alignment::Center, None), " ab  ");
    assert_eq!(pad_str_with("", 3, Alignment::Center, None, '*'), "*  ".replace(' ', "*"));
}

#[test]
fn padding_counts_columns_not_codes() {
    let s = style("ab").red().force_styling(true).render(false);
    assert_eq!(pad_str(&s, 4, Alignment::Right, None), format!("  {}", s));
}

#[test]
fn slice_of_whole_width_is_the_text() {
    for s in ["", "plain text", "Hello\x1b[31m🐶\x1b[1m🐶\x1b[0m world!", "\x1b[1m\x1b[0m", "バー\u{9b}1m"] {
        let w = measure_text_width(s);
        assert_eq!(slice_str(s, "", 0..w, ""), s);
    }
}

#[test]
fn slice_without_codes_or_markers_borrows() {
    assert!(matches!(slice_str("abcdef", "", 1..3, ""), Cow::Borrowed("bc")));
    assert!(matches!(slice_str("a\x1b[1mb", "", 0..1, ""), Cow::Borrowed("a\x1b[1m")));
    assert!(matches!(slice_str("ab\x1b[1m", "", 0..1, ""), Cow::Owned(_)));
    assert_eq!(slice_str("ab\x1b[1m", "", 0..1, ""), "a\x1b[1m");
}

#[test]
fn slice_never_halves_a_wide_glyph() {
    assert_eq!(slice_str("aバb", "", 0..2, ""), "a");
    assert_eq!(slice_str("aバb", "", 0..3, ""), "aバ");
    assert_eq!(slice_str("aバb", "", 2..4, ""), "b");
}

#[test]
fn slice_past_the_end_keeps_only_codes() {
    assert_eq!(slice_str("ab\x1b[1mc", "", 10..12, ""), "\x1b[1m");
    assert_eq!(slice_str("ab\x1b[1mc", "<", 10..12, ">"), "\x1b[1m<>");
}

#[test]
fn control_characters_take_no_columns() {
    assert_eq!(measure_text_width("a\tb\u{7}"), 2);
    assert_eq!(measure_text_width(""), 0);
}

#[test]
fn truncate_to_exact_width_borrows() {
    assert!(matches!(truncate_str("abc", 3, "..."), Cow::Borrowed("abc")));
}
