use console::parsed::ParsedStyledObjectIterator;
use console::style::{attribute_name, Attributes};
use console::term::{clear_chars_seq, move_cursor_down_seq, move_cursor_to_seq, move_cursor_up_seq};
use console::{style, Attribute, Color, Emoji, Style};

const ALL: [Attribute; 9] = [
    Attribute::Bold,
    Attribute::Dim,
    Attribute::Italic,
    Attribute::Underlined,
    Attribute::Blink,
    Attribute::BlinkFast,
    Attribute::Reverse,
    Attribute::Hidden,
    Attribute::StrikeThrough,
];

#[test]
fn test_attributes_single() {
    for attr in ALL {
        let attrs = Attributes::new().insert(attr);
        assert_eq!(attrs.bits(), [attr as u16]);
        assert_eq!(attrs.attrs(), [attr]);
        assert_eq!(attrs.describe(), format!("{{{:?}}}", attr));
    }
}

#[test]
fn test_attributes_many() {
    let tests: [&[Attribute]; 3] = [
        &[
            Attribute::Bold,
            Attribute::Underlined,
            Attribute::BlinkFast,
            Attribute::Hidden,
        ],
        &[
            Attribute::Dim,
            Attribute::Italic,
            Attribute::Blink,
            Attribute::Reverse,
            Attribute::StrikeThrough,
        ],
        &ALL,
    ];
    for test_attrs in tests {
        let mut attrs = Attributes::new();
        for attr in test_attrs {
            attrs = attrs.insert(*attr);
        }
        assert_eq!(
            attrs.bits(),
            test_attrs
                .iter()
                .map(|attr| *attr as u16)
                .collect::<Vec<_>>()
        );
        assert_eq!(&attrs.attrs(), test_attrs);
    }
}

#[test]
fn describe_lists_names_in_bit_order() {
    let attrs = Attributes::new().insert(Attribute::Hidden).insert(Attribute::Bold);
    assert_eq!(attrs.describe(), "{Bold, Hidden}");
    assert_eq!(Attributes::new().describe(), "{}");
    assert_eq!(attribute_name(Attribute::BlinkFast), "BlinkFast");
}

#[test]
fn render_basic_bright_and_palette_colors() {
    assert_eq!(style("x").red().force_styling(true).render(false), "\x1b[31mx\x1b[0m");
    assert_eq!(style("x").red().bright().force_styling(true).render(false), "\x1b[38;5;9mx\x1b[0m");
    assert_eq!(style("x").color256(200).force_styling(true).render(false), "\x1b[38;5;200mx\x1b[0m");
    assert_eq!(style("x").on_green().force_styling(true).render(false), "\x1b[42mx\x1b[0m");
    assert_eq!(style("x").on_white().on_bright().force_styling(true).render(false), "\x1b[48;5;15mx\x1b[0m");
    assert_eq!(style("x").underlined().dim().force_styling(true).render(false), "\x1b[2m\x1b[4mx\x1b[0m");
}

#[test]
fn render_follows_stream_setting_unless_forced() {
    let s = style("x").red();
    assert_eq!(s.render(false), "x");
    assert_eq!(s.render(true), "\x1b[31mx\x1b[0m");
    assert_eq!(style("x").red().force_styling(false).render(true), "x");
    assert_eq!(style("x").render(true), "x");
}

#[test]
fn dotted_names() {
    assert_eq!(Style::from_dotted_str("red.on_blue"), Style::new().red().on_blue());
    assert_eq!(Style::from_dotted_str("9.on_12"), Style::new().color256(9).on_color256(12));
    assert_eq!(Style::from_dotted_str("bold.nonsense..+7"), Style::new().bold().color256(7));
    assert_eq!(Style::from_dotted_str("italic.256.on_x"), Style::new());
    assert_eq!(Style::from_dotted_str(""), Style::new());
    assert_eq!(
        Style::from_dotted_str("green.bright.on_black.on_bright.underlined.strikethrough"),
        Style::new().green().bright().on_black().on_bright().underlined().strikethrough()
    );
}

#[test]
fn builders_set_fields() {
    let s = Style::new().for_stderr().magenta().on_cyan().reverse();
    assert!(s.for_stderr);
    assert_eq!(s.fg, Some(Color::Magenta));
    assert_eq!(s.bg, Some(Color::Cyan));
    assert_eq!(s.for_stdout().for_stderr, false);
    let o = style(5u8).yellow().on_magenta().blink_fast().hidden().for_stderr();
    assert_eq!(o.val, 5);
    assert_eq!(o.style, Style::new().yellow().on_magenta().blink_fast().hidden().for_stderr());
    assert_eq!(Style::default(), Style::new());
}

#[test]
fn sgr_numbers_to_colors_and_attributes() {
    assert_eq!(ParsedStyledObjectIterator::convert_to_color(&31), (Color::Red, false));
    assert_eq!(ParsedStyledObjectIterator::convert_to_color(&44), (Color::Blue, false));
    assert_eq!(ParsedStyledObjectIterator::convert_to_color(&12), (Color::Blue, true));
    assert_eq!(ParsedStyledObjectIterator::convert_to_color(&37), (Color::Color256(37), false));
    assert_eq!(ParsedStyledObjectIterator::convert_to_color(&200), (Color::Color256(200), false));
    assert_eq!(ParsedStyledObjectIterator::convert_to_attr(&1), Some(Attribute::Bold));
    assert_eq!(ParsedStyledObjectIterator::convert_to_attr(&6), None);
    assert_eq!(Color::Color256(3).ansi_num(), 3);
    assert!(Color::Color256(3).is_color256());
    assert!(!Color::Cyan.is_color256());
}

#[test]
fn emoji_or_fallback() {
    let e = Emoji::new("✨", ":-)");
    assert_eq!(e.render(true), "✨");
    assert_eq!(e.render(false), ":-)");
}

#[test]
fn cursor_sequences() {
    assert_eq!(move_cursor_up_seq(3), "\x1b[3A");
    assert_eq!(move_cursor_down_seq(12), "\x1b[12B");
    assert_eq!(move_cursor_up_seq(0), "");
    assert_eq!(move_cursor_to_seq(0, 4), "\x1b[5;1H");
    assert_eq!(clear_chars_seq(2), "\x1b[2D\x1b[0K");
}
