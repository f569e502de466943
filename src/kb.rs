//! Keys read from a keyboard.
use vstd::prelude::*;
use vstd::string::*;
use vstd::utf8::{decode_utf8, valid_utf8};

verus! {

/// A key read from the keyboard; not every key is known.
#[non_exhaustive]
#[derive(Clone, PartialEq, Eq, Debug, Hash)]
pub enum Key {
    Unknown,
    /// An escape sequence that is not known, with the characters after Esc.
    UnknownEscSeq(Vec<char>),
    ArrowLeft,
    ArrowRight,
    ArrowUp,
    ArrowDown,
    Enter,
    Escape,
    Backspace,
    Home,
    End,
    Tab,
    BackTab,
    Alt,
    Del,
    Shift,
    Insert,
    PageUp,
    PageDown,
    Char(char),
}

/// The keys that stand for text: characters, Enter and Backspace.
pub open spec fn is_text_key(k: Key) -> bool {
    k is Char || k is Enter || k is Backspace
}

/// The text that typing `keys` leaves: Enter adds a newline and Backspace
/// removes the last character, if any.
pub open spec fn typed(keys: Seq<Key>) -> Seq<char>
    decreases keys.len(),
{
    if keys.len() == 0 {
        Seq::empty()
    } else {
        let p = typed(keys.drop_last());
        match keys.last() {
            Key::Char(c) => p.push(c),
            Key::Enter => p.push('\n'),
            Key::Backspace => if p.len() > 0 {
                p.drop_last()
            } else {
                p
            },
            _ => p,
        }
    }
}

/// The text that typing `keys` leaves; see `typed`.
pub fn keys_to_utf8(keys: &[Key]) -> (r: String)
    requires
        forall|i: int| 0 <= i < keys@.len() ==> is_text_key(#[trigger] keys@[i]),
    ensures
        r@ == typed(keys@),
{
    let mut chars: Vec<char> = Vec::new();
    let mut i: usize = 0;
    while i < keys.len()
        invariant
            i <= keys@.len(),
            chars@ == typed(keys@.subrange(0, i as int)),
        decreases keys.len() - i,
    {
        assert(keys@.subrange(0, i + 1).drop_last() =~= keys@.subrange(0, i as int));
        match &keys[i] {
            Key::Char(c) => {
                chars.push(*c);
            },
            Key::Backspace => {
                if chars.len() > 0 {
                    chars.pop();
                }
            },
            Key::Enter => {
                chars.push('\n');
            },
            _ => {},
        }
        i = i + 1;
    }
    assert(keys@.subrange(0, i as int) =~= keys@);
    let mut out = String::new();
    let mut k: usize = 0;
    while k < chars.len()
        invariant
            k <= chars@.len(),
            out@ == chars@.subrange(0, k as int),
        decreases chars.len() - k,
    {
        crate::text::push_char(&mut out, chars[k]);
        k = k + 1;
        assert(out@ =~= chars@.subrange(0, k as int));
    }
    assert(chars@.subrange(0, k as int) =~= chars@);
    out
}

/// How an escape sequence read from the keyboard is decided.
pub enum EscapeOutcome {
    /// Another character is to be read.
    More,
    /// The key is known.
    Known(Key),
    /// The sequence is not known: its first `n` characters after Esc are kept.
    Unknown(usize),
}

/// The key that Esc and the characters `after` stand for, where `ended` says
/// that the last attempt to read one more character found none.
pub open spec fn escape_outcome(after: Seq<char>, ended: bool) -> EscapeOutcome {
    if after.len() == 0 {
        if ended { EscapeOutcome::Known(Key::Escape) } else { EscapeOutcome::More }
    } else if after[0] != '[' {
        EscapeOutcome::Unknown(1)
    } else if after.len() == 1 {
        if ended { EscapeOutcome::Unknown(1) } else { EscapeOutcome::More }
    } else {
        let c2 = after[1];
        if c2 == 'A' {
            EscapeOutcome::Known(Key::ArrowUp)
        } else if c2 == 'B' {
            EscapeOutcome::Known(Key::ArrowDown)
        } else if c2 == 'C' {
            EscapeOutcome::Known(Key::ArrowRight)
        } else if c2 == 'D' {
            EscapeOutcome::Known(Key::ArrowLeft)
        } else if c2 == 'H' {
            EscapeOutcome::Known(Key::Home)
        } else if c2 == 'F' {
            EscapeOutcome::Known(Key::End)
        } else if c2 == 'Z' {
            EscapeOutcome::Known(Key::BackTab)
        } else if after.len() == 2 {
            if ended { EscapeOutcome::Unknown(2) } else { EscapeOutcome::More }
        } else if after[2] != '~' {
            EscapeOutcome::Unknown(3)
        } else if c2 == '1' || c2 == '7' {
            EscapeOutcome::Known(Key::Home)
        } else if c2 == '2' {
            EscapeOutcome::Known(Key::Insert)
        } else if c2 == '3' {
            EscapeOutcome::Known(Key::Del)
        } else if c2 == '4' || c2 == '8' {
            EscapeOutcome::Known(Key::End)
        } else if c2 == '5' {
            EscapeOutcome::Known(Key::PageUp)
        } else if c2 == '6' {
            EscapeOutcome::Known(Key::PageDown)
        } else {
            EscapeOutcome::Unknown(3)
        }
    }
}

fn unknown_seq(after: &Vec<char>, n: usize) -> (r: Key)
    requires
        n <= after@.len(),
    ensures
        r matches Key::UnknownEscSeq(v) && v@ == after@.subrange(0, n as int),
{
    let mut v: Vec<char> = Vec::new();
    let mut i: usize = 0;
    while i < n
        invariant
            i <= n <= after@.len(),
            v@ == after@.subrange(0, i as int),
        decreases n - i,
    {
        v.push(after[i]);
        i = i + 1;
        assert(v@ =~= after@.subrange(0, i as int));
    }
    Key::UnknownEscSeq(v)
}

/// Decides the key that an escape sequence read from the keyboard stands
/// for: `after` holds the characters read after Esc, each read without
/// waiting, and `ended` says that the last such read found nothing. `None`
/// asks for one more character.
pub fn key_from_escape(after: &Vec<char>, ended: bool) -> (r: Option<Key>)
    ensures
        match escape_outcome(after@, ended) {
            EscapeOutcome::More => r is None,
            EscapeOutcome::Known(k) => r == Some(k),
            EscapeOutcome::Unknown(n) => r matches Some(Key::UnknownEscSeq(v)) && v@ == after@.subrange(
                0,
                n as int,
            ),
        },
{
    let n = after.len();
    if n == 0 {
        return if ended { Some(Key::Escape) } else { None };
    }
    if after[0] != '[' {
        return Some(unknown_seq(after, 1));
    }
    if n == 1 {
        return if ended { Some(unknown_seq(after, 1)) } else { None };
    }
    let c2 = after[1];
    if c2 == 'A' {
        return Some(Key::ArrowUp);
    } else if c2 == 'B' {
        return Some(Key::ArrowDown);
    } else if c2 == 'C' {
        return Some(Key::ArrowRight);
    } else if c2 == 'D' {
        return Some(Key::ArrowLeft);
    } else if c2 == 'H' {
        return Some(Key::Home);
    } else if c2 == 'F' {
        return Some(Key::End);
    } else if c2 == 'Z' {
        return Some(Key::BackTab);
    }
    if n == 2 {
        return if ended { Some(unknown_seq(after, 2)) } else { None };
    }
    if after[2] != '~' {
        return Some(unknown_seq(after, 3));
    }
    if c2 == '1' || c2 == '7' {
        Some(Key::Home)
    } else if c2 == '2' {
        Some(Key::Insert)
    } else if c2 == '3' {
        Some(Key::Del)
    } else if c2 == '4' || c2 == '8' {
        Some(Key::End)
    } else if c2 == '5' {
        Some(Key::PageUp)
    } else if c2 == '6' {
        Some(Key::PageDown)
    } else {
        Some(unknown_seq(after, 3))
    }
}

/// How many more bytes a character that starts with `byte` takes in UTF-8;
/// zero for a byte that does not start a longer character.
pub open spec fn utf8_extra(byte: u8) -> nat {
    if byte & 224u8 == 192u8 {
        1
    } else if byte & 240u8 == 224u8 {
        2
    } else if byte & 248u8 == 240u8 {
        3
    } else {
        0
    }
}

pub fn utf8_extra_bytes(byte: u8) -> (r: usize)
    ensures
        r == utf8_extra(byte),
{
    if byte & 224u8 == 192u8 {
        1
    } else if byte & 240u8 == 224u8 {
        2
    } else if byte & 248u8 == 240u8 {
        3
    } else {
        0
    }
}

/// The key that a single byte other than Esc stands for.
pub open spec fn byte_key(byte: u8) -> Key {
    if byte == 10 || byte == 13 {
        Key::Enter
    } else if byte == 127 || byte == 8 {
        Key::Backspace
    } else if byte == 9 {
        Key::Tab
    } else if byte == 1 {
        Key::Home
    } else if byte == 5 {
        Key::End
    } else {
        Key::Char(byte as char)
    }
}

pub fn key_from_byte(byte: u8) -> (r: Key)
    ensures
        r == byte_key(byte),
{
    if byte == 10 || byte == 13 {
        Key::Enter
    } else if byte == 127 || byte == 8 {
        Key::Backspace
    } else if byte == 9 {
        Key::Tab
    } else if byte == 1 {
        Key::Home
    } else if byte == 5 {
        Key::End
    } else {
        Key::Char(byte as char)
    }
}

/// Relies on `std::str::from_utf8`: it succeeds exactly on valid UTF-8 and
/// then holds the characters that the bytes encode.
#[verifier::external_body]
fn utf8_text(buf: &[u8]) -> (r: Option<&str>)
    ensures
        r is Some == valid_utf8(buf@),
        r matches Some(s) ==> s@ == decode_utf8(buf@),
{
    std::str::from_utf8(buf).ok()
}

/// The key that the bytes of one character stand for: the character they
/// encode, if they are valid UTF-8 and not empty.
pub fn key_from_utf8(buf: &[u8]) -> (r: Key)
    ensures
        valid_utf8(buf@) && decode_utf8(buf@).len() > 0 ==> r == Key::Char(decode_utf8(buf@)[0]),
        !(valid_utf8(buf@) && decode_utf8(buf@).len() > 0) ==> r == Key::Unknown,
{
    if let Some(s) = utf8_text(buf) {
        if !s.is_empty() {
            return Key::Char(s.get_char(0));
        }
    }
    Key::Unknown
}

} // verus!
