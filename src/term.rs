//! What a terminal is and the escape sequences that move its cursor and
//! clear it.
use crate::style::{decimal, sgr};
use vstd::prelude::*;
use vstd::string::*;

verus! {

/// Where a terminal writes.
#[derive(Debug, Clone, Copy, PartialEq, Eq, Structural)]
pub enum TermTarget {
    Stdout,
    Stderr,
}

/// The kind of a terminal.
#[derive(Debug, Clone, Copy, PartialEq, Eq, Structural)]
pub enum TermFamily {
    /// Redirected to a file or something like one.
    File,
    /// A standard unix terminal.
    UnixTerm,
    /// A console like that of cmd.exe.
    WindowsConsole,
}

/// `ESC [ <n> <cmd>`, or nothing where `n` is zero.
pub open spec fn cursor_code(n: nat, cmd: char) -> Seq<char> {
    if n > 0 {
        seq!['\u{1b}', '['] + decimal(n) + seq![cmd]
    } else {
        Seq::empty()
    }
}

fn cursor_seq(n: usize, cmd: char) -> (r: String)
    ensures
        r@ == cursor_code(n as nat, cmd),
{
    let mut s = String::new();
    if n > 0 {
        crate::text::push_char(&mut s, '\u{1b}');
        crate::text::push_char(&mut s, '[');
        crate::style::push_decimal(&mut s, n);
        crate::text::push_char(&mut s, cmd);
    }
    assert(s@ =~= cursor_code(n as nat, cmd));
    s
}

/// The sequence that moves the cursor `n` lines down.
pub fn move_cursor_down_seq(n: usize) -> (r: String)
    ensures
        r@ == cursor_code(n as nat, 'B'),
{
    cursor_seq(n, 'B')
}

/// The sequence that moves the cursor `n` lines up.
pub fn move_cursor_up_seq(n: usize) -> (r: String)
    ensures
        r@ == cursor_code(n as nat, 'A'),
{
    cursor_seq(n, 'A')
}

/// The sequence that moves the cursor `n` columns left.
pub fn move_cursor_left_seq(n: usize) -> (r: String)
    ensures
        r@ == cursor_code(n as nat, 'D'),
{
    cursor_seq(n, 'D')
}

/// The sequence that moves the cursor `n` columns right.
pub fn move_cursor_right_seq(n: usize) -> (r: String)
    ensures
        r@ == cursor_code(n as nat, 'C'),
{
    cursor_seq(n, 'C')
}

/// The sequence that moves the cursor to column `x` of row `y`, both counted
/// from zero.
pub fn move_cursor_to_seq(x: usize, y: usize) -> (r: String)
    requires
        x < usize::MAX,
        y < usize::MAX,
    ensures
        r@ == seq!['\u{1b}', '['] + decimal((y + 1) as nat) + seq![';'] + decimal((x + 1) as nat)
            + seq!['H'],
{
    let mut s = String::new();
    crate::text::push_char(&mut s, '\u{1b}');
    crate::text::push_char(&mut s, '[');
    crate::style::push_decimal(&mut s, y + 1);
    crate::text::push_char(&mut s, ';');
    crate::style::push_decimal(&mut s, x + 1);
    crate::text::push_char(&mut s, 'H');
    assert(s@ =~= seq!['\u{1b}', '['] + decimal((y + 1) as nat) + seq![';'] + decimal(
        (x + 1) as nat,
    ) + seq!['H']);
    s
}

/// The sequence that clears the `n` characters left of the cursor.
pub fn clear_chars_seq(n: usize) -> (r: String)
    ensures
        r@ == if n > 0 {
            cursor_code(n as nat, 'D') + sgr(seq!['0']).drop_last() + seq!['K']
        } else {
            Seq::empty()
        },
{
    let mut s = cursor_seq(n, 'D');
    if n > 0 {
        crate::text::push_char(&mut s, '\u{1b}');
        crate::text::push_char(&mut s, '[');
        crate::text::push_char(&mut s, '0');
        crate::text::push_char(&mut s, 'K');
        assert(s@ =~= cursor_code(n as nat, 'D') + sgr(seq!['0']).drop_last() + seq!['K']);
    }
    s
}

/// `a` and `b` hold the same characters.
fn same_text(a: &str, b: &str) -> (r: bool)
    ensures
        r == (a@ == b@),
{
    let x = crate::ansi::chars_of(a);
    let y = crate::ansi::chars_of(b);
    if x.len() != y.len() {
        return false;
    }
    let mut i: usize = 0;
    while i < x.len()
        invariant
            i <= x@.len() == y@.len(),
            x@ == a@,
            y@ == b@,
            forall|j: int| 0 <= j < i ==> x@[j] == y@[j],
        decreases x.len() - i,
    {
        if x[i] != y[i] {
            return false;
        }
        i = i + 1;
    }
    assert(x@ =~= y@);
    true
}

/// Whether a terminal takes colors: it must be a terminal, `NO_COLOR` must be
/// unset, and `TERM` must be set to something other than `dumb`.
pub fn is_color_terminal(is_tty: bool, no_color_set: bool, term: Option<&str>) -> (r: bool)
    ensures
        r == (is_tty && !no_color_set && (term matches Some(t) && t@ != "dumb"@)),
{
    if !is_tty || no_color_set {
        return false;
    }
    match term {
        Some(t) => !same_text(t, "dumb"),
        None => false,
    }
}

/// Whether colors are on by default for a stream: where the terminal supports
/// them and `CLICOLOR` is not `0` (unset counts as `1`), or where
/// `CLICOLOR_FORCE` is set to something other than `0`.
pub fn colors_on_by_default(
    colors_supported: bool,
    clicolor: Option<&str>,
    clicolor_force: Option<&str>,
) -> (r: bool)
    ensures
        r == ((colors_supported && !(clicolor matches Some(c) && c@ == "0"@)) || (
        clicolor_force matches Some(f) && f@ != "0"@)),
{
    let allowed = match clicolor {
        Some(c) => !same_text(c, "0"),
        None => true,
    };
    let forced = match clicolor_force {
        Some(f) => !same_text(f, "0"),
        None => false,
    };
    (colors_supported && allowed) || forced
}

/// The length of `s` without the line breaks at its end.
pub open spec fn line_len(s: Seq<char>) -> nat
    decreases s.len(),
{
    if s.len() > 0 && (s.last() == '\r' || s.last() == '\n') {
        line_len(s.drop_last())
    } else {
        s.len()
    }
}

pub proof fn lemma_line_len(s: Seq<char>)
    ensures
        line_len(s) <= s.len(),
    decreases s.len(),
{
    if s.len() > 0 {
        lemma_line_len(s.drop_last());
    }
}

/// `s` without the carriage returns and line feeds at its end.
pub fn trim_line_end(s: &str) -> (r: &str)
    ensures
        r@ == s@.subrange(0, line_len(s@) as int),
{
    let cs = crate::ansi::chars_of(s);
    let mut n = cs.len();
    proof {
        assert(cs@.subrange(0, n as int) =~= s@);
    }
    while n > 0 && (cs[n - 1] == '\r' || cs[n - 1] == '\n')
        invariant
            n <= cs@.len(),
            cs@ == s@,
            line_len(s@) == line_len(cs@.subrange(0, n as int)),
        decreases n,
    {
        assert(cs@.subrange(0, n as int).drop_last() =~= cs@.subrange(0, n - 1));
        n = n - 1;
    }
    proof {
        lemma_line_len(cs@.subrange(0, n as int));
    }
    s.substring_char(0, n)
}

/// Upper case of `s`.
pub uninterp spec fn upper_of(s: Seq<char>) -> Seq<char>;

/// Relies on `str::to_uppercase`: the result depends on the characters alone.
#[verifier::external_body]
fn uppercase(s: &str) -> (r: String)
    ensures
        r@ == upper_of(s@),
{
    s.to_uppercase()
}

/// `s` ends with `suffix`.
pub open spec fn ends_with(s: Seq<char>, suffix: Seq<char>) -> bool {
    suffix.len() <= s.len() && s.subrange(s.len() - suffix.len(), s.len() as int) == suffix
}

fn text_ends_with(s: &str, suffix: &str) -> (r: bool)
    ensures
        r == ends_with(s@, suffix@),
{
    let x = crate::ansi::chars_of(s);
    let y = crate::ansi::chars_of(suffix);
    if y.len() > x.len() {
        return false;
    }
    let xl = x.len();
    let off = xl - y.len();
    let mut i: usize = 0;
    while i < y.len()
        invariant
            i <= y@.len(),
            x@ == s@,
            y@ == suffix@,
            off + y@.len() == x@.len() == xl,
            forall|j: int| 0 <= j < i ==> x@[off + j] == y@[j],
        decreases y.len() - i,
    {
        if x[off + i] != y[i] {
            assert(x@.subrange(off as int, x@.len() as int)[i as int] != y@[i as int]);
            return false;
        }
        i = i + 1;
    }
    assert(x@.subrange(off as int, x@.len() as int) =~= y@);
    true
}

/// Whether a locale wants emojis: `LANG` is set and, in upper case, ends with
/// `UTF-8`.
pub fn lang_wants_emoji(lang: Option<&str>) -> (r: bool)
    ensures
        r == (lang matches Some(l) && ends_with(upper_of(l@), "UTF-8"@)),
{
    match lang {
        Some(l) => {
            let up = uppercase(l);
            text_ends_with(up.as_str(), "UTF-8")
        },
        None => false,
    }
}

} // verus!
