//! Terminal text utilities: recognition of ANSI escape sequences, width-aware
//! measuring, slicing, truncation and padding of styled text, text styles and
//! the escape sequences that render them, and keys read from a keyboard.
use vstd::prelude::*;

pub mod ansi;
pub mod grammar;
pub mod kb;
pub mod parsed;
pub mod style;
pub mod term;
pub mod text;

pub use ansi::{strip_ansi_codes, AnsiCodeIterator};
pub use kb::{keys_to_utf8, Key};
pub use parsed::ParsedStyledObjectIterator;
pub use style::{style, Attribute, Color, Emoji, Style, StyledObject};
pub use term::{TermFamily, TermTarget};
pub use text::{measure_text_width, pad_str, pad_str_with, slice_str, truncate_str, Alignment};

verus! {

} // verus!
