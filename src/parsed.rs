//! Reading styled text back into runs of text and the styles they were
//! written in.
use crate::ansi::{is_digit, AnsiCodeIterator};
use crate::style::{plain_style, reset_code, Attribute, Color, Style};
use vstd::prelude::*;
use vstd::string::*;

verus! {

/// `ESC [ <lead> <digit> m`: a basic color, `lead` being '3' for the
/// foreground and '4' for the background.
pub open spec fn basic_color_code(t: Seq<char>, lead: char) -> bool {
    t.len() == 5 && t[0] == '\u{1b}' && t[1] == '[' && t[2] == lead && is_digit(t[3]) && t[4] == 'm'
}

/// `ESC [ <lead> 8 ; 5 ; <n> m`, with `n` one or two digits not starting
/// with zero: a color of the 256-color palette.
pub open spec fn palette_code(t: Seq<char>, lead: char) -> bool {
    (t.len() == 9 || t.len() == 10) && t[0] == '\u{1b}' && t[1] == '[' && t[2] == lead && t[3]
        == '8' && t[4] == ';' && t[5] == '5' && t[6] == ';' && '1' <= t[7] <= '9' && (t.len()
        == 10 ==> is_digit(t[8])) && t[t.len() - 1] == 'm'
}

/// `ESC [ <digit> m` with a digit from one to nine: an attribute.
pub open spec fn attr_code(t: Seq<char>) -> bool {
    t.len() == 4 && t[0] == '\u{1b}' && t[1] == '[' && '1' <= t[2] <= '9' && t[3] == 'm'
}

pub open spec fn digit_value(c: char) -> nat {
    (c as int - 48) as nat
}

/// The number that a recognized sequence carries: the basic color code
/// (30 to 39, 40 to 49), the palette index, or the attribute number.
pub open spec fn code_number(t: Seq<char>) -> nat {
    if t.len() == 5 {
        10 * digit_value(t[2]) + digit_value(t[3])
    } else if t.len() == 4 {
        digit_value(t[2])
    } else if t.len() == 9 {
        digit_value(t[7])
    } else {
        10 * digit_value(t[7]) + digit_value(t[8])
    }
}

/// The color that an SGR number stands for, and whether it is bright.
pub open spec fn color_of(n: u8) -> (Color, bool) {
    let (m, bright) = if 40 <= n < 47 {
        ((n - 40) as u8, false)
    } else if 30 <= n < 37 {
        ((n - 30) as u8, false)
    } else if 8 <= n < 15 {
        ((n - 8) as u8, true)
    } else {
        (n, false)
    };
    (
        if m == 0 {
            Color::Black
        } else if m == 1 {
            Color::Red
        } else if m == 2 {
            Color::Green
        } else if m == 3 {
            Color::Yellow
        } else if m == 4 {
            Color::Blue
        } else if m == 5 {
            Color::Magenta
        } else if m == 6 {
            Color::Cyan
        } else if m == 7 {
            Color::White
        } else {
            Color::Color256(m)
        },
        bright,
    )
}

/// The attribute that an SGR number stands for, if any.
pub open spec fn attr_of(n: u8) -> Option<Attribute> {
    if n == 1 {
        Some(Attribute::Bold)
    } else if n == 2 {
        Some(Attribute::Dim)
    } else if n == 3 {
        Some(Attribute::Italic)
    } else if n == 4 {
        Some(Attribute::Underlined)
    } else if n == 5 {
        Some(Attribute::Blink)
    } else if n == 7 {
        Some(Attribute::Reverse)
    } else if n == 8 {
        Some(Attribute::Hidden)
    } else {
        None
    }
}

/// What the escape sequence `t` does to the style read so far.
pub open spec fn code_effect(st: Option<Style>, t: Seq<char>) -> Option<Style> {
    let base = match st {
        Some(s) => s,
        None => plain_style(),
    };
    if basic_color_code(t, '3') || palette_code(t, '3') {
        let (c, bright) = color_of(code_number(t) as u8);
        Some(Style { fg: Some(c), fg_bright: base.fg_bright || bright, ..base })
    } else if basic_color_code(t, '4') || palette_code(t, '4') {
        let (c, bright) = color_of(code_number(t) as u8);
        Some(Style { bg: Some(c), bg_bright: base.bg_bright || bright, ..base })
    } else if attr_code(t) {
        match attr_of(code_number(t) as u8) {
            Some(a) => Some(base.with_attr(a)),
            None => st,
        }
    } else {
        st
    }
}

/// Reads one run from `segs`: the segments taken, the text read and the
/// style. A run is text alone, or the escape sequences that open a style,
/// the text in it, and the reset that closes it.
pub open spec fn parse_run(
    segs: Seq<(Seq<char>, bool)>,
    started: bool,
    val: Seq<char>,
    st: Option<Style>,
) -> (nat, Seq<char>, Option<Style>)
    decreases segs.len(),
{
    if segs.len() == 0 {
        (0, val, st)
    } else {
        let t = segs[0].0;
        if !segs[0].1 {
            if !started {
                (1, val + t, st)
            } else {
                let r = parse_run(segs.drop_first(), started, val + t, st);
                (r.0 + 1, r.1, r.2)
            }
        } else if t == reset_code() {
            (1, val, st)
        } else {
            let r = parse_run(segs.drop_first(), true, val, code_effect(st, t));
            (r.0 + 1, r.1, r.2)
        }
    }
}

/// The style of a run, forced on as it was found in the text.
pub open spec fn forced(st: Option<Style>) -> Option<Style> {
    match st {
        Some(s) => Some(Style { force: Some(true), ..s }),
        None => None,
    }
}

fn digit_at(t: &Vec<char>, i: usize) -> (r: u8)
    requires
        i < t@.len(),
        is_digit(t@[i as int]),
    ensures
        r == digit_value(t@[i as int]),
{
    (t[i] as u32 - 48) as u8
}

fn is_basic_color_code(t: &Vec<char>, lead: char) -> (r: bool)
    ensures
        r == basic_color_code(t@, lead),
{
    t.len() == 5 && t[0] == '\u{1b}' && t[1] == '[' && t[2] == lead && '0' <= t[3] && t[3] <= '9'
        && t[4] == 'm'
}

fn is_palette_code(t: &Vec<char>, lead: char) -> (r: bool)
    ensures
        r == palette_code(t@, lead),
{
    (t.len() == 9 || t.len() == 10) && t[0] == '\u{1b}' && t[1] == '[' && t[2] == lead && t[3]
        == '8' && t[4] == ';' && t[5] == '5' && t[6] == ';' && '1' <= t[7] && t[7] <= '9' && (
    t.len() != 10 || ('0' <= t[8] && t[8] <= '9')) && t[t.len() - 1] == 'm'
}

fn is_attr_code(t: &Vec<char>) -> (r: bool)
    ensures
        r == attr_code(t@),
{
    t.len() == 4 && t[0] == '\u{1b}' && t[1] == '[' && '1' <= t[2] && t[2] <= '9' && t[3] == 'm'
}

/// The number that a recognized sequence carries; see `code_number`.
fn code_number_exec(t: &Vec<char>) -> (r: u8)
    requires
        basic_color_code(t@, '3') || palette_code(t@, '3') || basic_color_code(t@, '4')
            || palette_code(t@, '4') || attr_code(t@),
    ensures
        r == code_number(t@),
{
    if t.len() == 5 {
        10 * digit_at(t, 2) + digit_at(t, 3)
    } else if t.len() == 4 {
        digit_at(t, 2)
    } else if t.len() == 9 {
        digit_at(t, 7)
    } else {
        10 * digit_at(t, 7) + digit_at(t, 8)
    }
}

fn is_reset(t: &Vec<char>) -> (r: bool)
    ensures
        r == (t@ == reset_code()),
{
    let r = t.len() == 4 && t[0] == '\u{1b}' && t[1] == '[' && t[2] == '0' && t[3] == 'm';
    proof {
        if r {
            assert(t@ =~= reset_code());
        }
    }
    r
}

fn apply_code(st: Option<Style>, t: &Vec<char>) -> (r: Option<Style>)
    ensures
        r == code_effect(st, t@),
{
    let base = match st {
        Some(s) => s,
        None => Style::new(),
    };
    if is_basic_color_code(t, '3') || is_palette_code(t, '3') {
        let n = code_number_exec(t);
        let (c, bright) = ParsedStyledObjectIterator::convert_to_color(&n);
        let s = base.fg(c);
        Some(if bright { s.bright() } else { s })
    } else if is_basic_color_code(t, '4') || is_palette_code(t, '4') {
        let n = code_number_exec(t);
        let (c, bright) = ParsedStyledObjectIterator::convert_to_color(&n);
        let s = base.bg(c);
        Some(if bright { s.on_bright() } else { s })
    } else if is_attr_code(t) {
        let n = code_number_exec(t);
        match ParsedStyledObjectIterator::convert_to_attr(&n) {
            Some(a) => Some(base.attr(a)),
            None => st,
        }
    } else {
        st
    }
}

/// An iterator over the runs of a styled text: each item is a run of text and
/// the style it was written in, if any.
pub struct ParsedStyledObjectIterator<'a> {
    ansi_code_it: AnsiCodeIterator<'a>,
}

impl<'a> ParsedStyledObjectIterator<'a> {
    /// The color that an SGR number stands for, and whether it is bright.
    pub fn convert_to_color(ansi_num: &u8) -> (r: (Color, bool))
        ensures
            r == color_of(*ansi_num),
    {
        let n = *ansi_num;
        let mut bright = false;
        let m = if 40 <= n && n < 47 {
            n - 40
        } else if 30 <= n && n < 37 {
            n - 30
        } else if 8 <= n && n < 15 {
            bright = true;
            n - 8
        } else {
            n
        };
        let c = if m == 0 {
            Color::Black
        } else if m == 1 {
            Color::Red
        } else if m == 2 {
            Color::Green
        } else if m == 3 {
            Color::Yellow
        } else if m == 4 {
            Color::Blue
        } else if m == 5 {
            Color::Magenta
        } else if m == 6 {
            Color::Cyan
        } else if m == 7 {
            Color::White
        } else {
            Color::Color256(m)
        };
        (c, bright)
    }

    /// The attribute that an SGR number stands for, if any.
    pub fn convert_to_attr(ansi_num: &u8) -> (r: Option<Attribute>)
        ensures
            r == attr_of(*ansi_num),
    {
        match *ansi_num {
            1 => Some(Attribute::Bold),
            2 => Some(Attribute::Dim),
            3 => Some(Attribute::Italic),
            4 => Some(Attribute::Underlined),
            5 => Some(Attribute::Blink),
            7 => Some(Attribute::Reverse),
            8 => Some(Attribute::Hidden),
            _ => None,
        }
    }

    pub closed spec fn remaining(&self) -> Seq<(Seq<char>, bool)> {
        self.ansi_code_it.remaining()
    }

    pub closed spec fn wf(&self) -> bool {
        self.ansi_code_it.wf()
    }

    pub fn new(s: &'a str) -> (r: ParsedStyledObjectIterator<'a>)
        ensures
            r.wf(),
            r.remaining() == crate::ansi::segments(s@),
    {
        ParsedStyledObjectIterator { ansi_code_it: AnsiCodeIterator::new(s) }
    }

    /// The next run and its style.
    pub fn next(&mut self) -> (r: Option<(String, Option<Style>)>)
        requires
            old(self).wf(),
        ensures
            final(self).wf(),
            old(self).remaining().len() == 0 ==> r is None,
            old(self).remaining().len() > 0 ==> {
                let run = parse_run(old(self).remaining(), false, Seq::empty(), None);
                &&& r matches Some((text, st))
                &&& text@ == run.1
                &&& st == forced(run.2)
                &&& final(self).remaining() == old(self).remaining().skip(run.0 as int)
            },
    {
        let ghost segs = self.ansi_code_it.remaining();
        let mut style_option: Option<Style> = None;
        let mut val = String::new();
        let mut ansi_start = false;
        let mut has_next = false;
        let ghost mut taken: int = 0;
        assert(segs.skip(0) =~= segs);
        loop
            invariant_except_break
                ({
                    let r = parse_run(self.ansi_code_it.remaining(), ansi_start, val@, style_option);
                    parse_run(segs, false, Seq::empty(), None) == ((r.0 + taken) as nat, r.1, r.2)
                }),
            invariant
                self.ansi_code_it.wf(),
                segs == old(self).remaining(),
                0 <= taken <= segs.len(),
                self.ansi_code_it.remaining() == segs.skip(taken),
                has_next == (taken > 0),
            ensures
                has_next == (segs.len() > 0),
                has_next ==> parse_run(segs, false, Seq::empty(), None) == (
                    taken as nat,
                    val@,
                    style_option,
                ),
                self.ansi_code_it.remaining() == segs.skip(taken),
                self.ansi_code_it.wf(),
            decreases self.ansi_code_it.remaining().len(),
        {
            let ghost before = self.ansi_code_it.remaining();
            let ghost acc = val@;
            let ghost st0 = style_option;
            let ghost started0 = ansi_start;
            match self.ansi_code_it.next() {
                None => {
                    proof {
                        assert(segs.skip(taken).len() == 0);
                    }
                    break;
                },
                Some((ansi_str, is_ansi)) => {
                    proof {
                        assert(before.drop_first() =~= segs.skip(taken + 1));
                        taken = taken + 1;
                    }
                    has_next = true;
                    if !is_ansi {
                        val.append(ansi_str);
                        if !ansi_start {
                            break;
                        }
                    } else {
                        let t = crate::ansi::chars_of(ansi_str);
                        if is_reset(&t) {
                            break;
                        }
                        ansi_start = true;
                        style_option = apply_code(style_option, &t);
                    }
                },
            }
        }
        let forced_style = match style_option {
            Some(so) => Some(so.force_styling(true)),
            None => None,
        };
        if has_next {
            Some((val, forced_style))
        } else {
            None
        }
    }
}

} // verus!
