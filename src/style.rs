//! Colors, attributes and styles, and the escape sequences that render them.
use vstd::prelude::*;

verus! {

/// A terminal color.
#[derive(Debug, Clone, Copy, PartialEq, Eq, Structural)]
pub enum Color {
    Black,
    Red,
    Green,
    Yellow,
    Blue,
    Magenta,
    Cyan,
    White,
    Color256(u8),
}

impl Color {
    /// The color's number in the ANSI palette.
    pub open spec fn number(self) -> nat {
        match self {
            Color::Black => 0,
            Color::Red => 1,
            Color::Green => 2,
            Color::Yellow => 3,
            Color::Blue => 4,
            Color::Magenta => 5,
            Color::Cyan => 6,
            Color::White => 7,
            Color::Color256(x) => x as nat,
        }
    }

    pub fn ansi_num(self) -> (r: usize)
        ensures
            r == self.number(),
    {
        match self {
            Color::Black => 0,
            Color::Red => 1,
            Color::Green => 2,
            Color::Yellow => 3,
            Color::Blue => 4,
            Color::Magenta => 5,
            Color::Cyan => 6,
            Color::White => 7,
            Color::Color256(x) => x as usize,
        }
    }

    pub fn is_color256(self) -> (r: bool)
        ensures
            r == (self is Color256),
    {
        match self {
            Color::Color256(_) => true,
            _ => false,
        }
    }
}

/// A terminal text attribute.
#[derive(Debug, Clone, Copy, PartialEq, Eq, PartialOrd, Ord, Hash, Structural)]
pub enum Attribute {
    Bold,
    Dim,
    Italic,
    Underlined,
    Blink,
    BlinkFast,
    Reverse,
    Hidden,
    StrikeThrough,
}

impl Attribute {
    /// The attribute's bit in a set; its SGR number is one more.
    pub open spec fn index(self) -> nat {
        match self {
            Attribute::Bold => 0,
            Attribute::Dim => 1,
            Attribute::Italic => 2,
            Attribute::Underlined => 3,
            Attribute::Blink => 4,
            Attribute::BlinkFast => 5,
            Attribute::Reverse => 6,
            Attribute::Hidden => 7,
            Attribute::StrikeThrough => 8,
        }
    }

    pub fn bit(self) -> (r: u16)
        ensures
            r == self.index(),
    {
        match self {
            Attribute::Bold => 0,
            Attribute::Dim => 1,
            Attribute::Italic => 2,
            Attribute::Underlined => 3,
            Attribute::Blink => 4,
            Attribute::BlinkFast => 5,
            Attribute::Reverse => 6,
            Attribute::Hidden => 7,
            Attribute::StrikeThrough => 8,
        }
    }

    /// The attribute with bit `b`.
    pub open spec fn of_index(b: nat) -> Attribute {
        if b == 0 {
            Attribute::Bold
        } else if b == 1 {
            Attribute::Dim
        } else if b == 2 {
            Attribute::Italic
        } else if b == 3 {
            Attribute::Underlined
        } else if b == 4 {
            Attribute::Blink
        } else if b == 5 {
            Attribute::BlinkFast
        } else if b == 6 {
            Attribute::Reverse
        } else if b == 7 {
            Attribute::Hidden
        } else {
            Attribute::StrikeThrough
        }
    }

    pub fn from_bit(b: u16) -> (r: Attribute)
        requires
            b < 9,
        ensures
            r == Attribute::of_index(b as nat),
            r.index() == b,
    {
        if b == 0 {
            Attribute::Bold
        } else if b == 1 {
            Attribute::Dim
        } else if b == 2 {
            Attribute::Italic
        } else if b == 3 {
            Attribute::Underlined
        } else if b == 4 {
            Attribute::Blink
        } else if b == 5 {
            Attribute::BlinkFast
        } else if b == 6 {
            Attribute::Reverse
        } else if b == 7 {
            Attribute::Hidden
        } else {
            Attribute::StrikeThrough
        }
    }
}

/// A set of attributes, one bit each.
#[derive(Debug, Clone, Copy, PartialEq, Eq, Structural)]
pub struct Attributes(pub u16);

/// Bit `b` of `x` is set.
pub open spec fn bit_set(x: u16, b: u16) -> bool {
    (x >> b) & 1u16 == 1u16
}

/// The set bits of `x`, from bit `i` up, in increasing order.
pub open spec fn bits_from(x: u16, i: nat) -> Seq<u16>
    decreases 16 - i,
{
    if i >= 16 {
        Seq::empty()
    } else {
        (if bit_set(x, i as u16) {
            seq![i as u16]
        } else {
            Seq::empty()
        }) + bits_from(x, i + 1)
    }
}

impl Attributes {
    /// Whether `a` is in the set.
    pub open spec fn has(self, a: Attribute) -> bool {
        bit_set(self.0, a.index() as u16)
    }

    /// Only the bits of attributes are used.
    pub open spec fn wf(self) -> bool {
        self.0 < 512
    }

    /// The bits of the set, in increasing order.
    pub open spec fn bit_seq(self) -> Seq<u16> {
        bits_from(self.0, 0)
    }

    pub fn new() -> (r: Attributes)
        ensures
            r.wf(),
            r.0 == 0,
            forall|a: Attribute| !r.has(a),
    {
        proof {
            assert forall|b: u16| b < 16 implies !bit_set(0u16, b) by {
                assert((0u16 >> b) & 1u16 == 0u16) by (bit_vector);
            }
        }
        Attributes(0)
    }

    /// The set with `attr` added.
    pub fn insert(self, attr: Attribute) -> (r: Attributes)
        ensures
            self.wf() ==> r.wf(),
            r.0 == self.0 | (1u16 << attr.index() as u16),
            forall|a: Attribute| r.has(a) == (self.has(a) || a == attr),
    {
        let bit = attr.bit();
        let x = self.0;
        proof {
            assert(x < 512 && bit < 9 ==> (x | (1u16 << bit)) < 512) by (bit_vector);
            assert forall|a: Attribute| bit_set(x | (1u16 << bit), a.index() as u16) == (bit_set(
                x,
                a.index() as u16,
            ) || a == attr) by {
                let c = a.index() as u16;
                assert(c < 16 && bit < 16 ==> ((((x | (1u16 << bit)) >> c) & 1u16 == 1u16) == (((x
                    >> c) & 1u16 == 1u16) || c == bit))) by (bit_vector);
                assert(a.index() == attr.index() ==> a == attr);
            }
        }
        Attributes(x | (1u16 << bit))
    }

    /// The bits of the set, in increasing order.
    pub fn bits(self) -> (r: Vec<u16>)
        ensures
            r@ == self.bit_seq(),
    {
        let mut r: Vec<u16> = Vec::new();
        let mut i: u16 = 0;
        while i < 16
            invariant
                i <= 16,
                r@ + bits_from(self.0, i as nat) == self.bit_seq(),
            decreases 16 - i,
        {
            let ghost acc = r@;
            if (self.0 >> i) & 1 == 1 {
                r.push(i);
            }
            proof {
                let piece = if bit_set(self.0, i) { seq![i] } else { Seq::<u16>::empty() };
                assert(r@ == acc + piece);
                assert(acc + (piece + bits_from(self.0, (i + 1) as nat)) =~= (acc + piece)
                    + bits_from(self.0, (i + 1) as nat));
            }
            i = i + 1;
        }
        assert(r@ + Seq::<u16>::empty() =~= r@);
        r
    }

    /// The attributes of the set, in the order of their bits.
    pub fn attrs(self) -> (r: Vec<Attribute>)
        requires
            self.wf(),
        ensures
            r@ == self.bit_seq().map_values(|b: u16| Attribute::of_index(b as nat)),
    {
        let bits = self.bits();
        let mut r: Vec<Attribute> = Vec::new();
        let mut k: usize = 0;
        proof {
            lemma_bits_below(self.0, 0);
        }
        while k < bits.len()
            invariant
                k <= bits@.len(),
                bits@ == self.bit_seq(),
                forall|j: int| 0 <= j < bits@.len() ==> #[trigger] bits@[j] < 9,
                r@ == bits@.subrange(0, k as int).map_values(|b: u16| Attribute::of_index(b as nat)),
            decreases bits.len() - k,
        {
            r.push(Attribute::from_bit(bits[k]));
            k = k + 1;
            assert(r@ =~= bits@.subrange(0, k as int).map_values(|b: u16| Attribute::of_index(b as nat)));
        }
        assert(bits@.subrange(0, k as int) =~= bits@);
        r
    }

    pub fn is_empty(self) -> (r: bool)
        ensures
            r == (self.0 == 0),
    {
        self.0 == 0
    }
}

/// With only the low nine bits used, every set bit is below nine.
pub proof fn lemma_bits_below(x: u16, i: nat)
    requires
        x < 512,
    ensures
        forall|j: int| 0 <= j < bits_from(x, i).len() ==> #[trigger] bits_from(x, i)[j] < 9,
        forall|j: int| 0 <= j < bits_from(x, i).len() ==> #[trigger] bits_from(x, i)[j] >= i,
    decreases 16 - i,
{
    if i < 16 {
        lemma_bits_below(x, i + 1);
        let b = i as u16;
        assert(x < 512 && b >= 9 && b < 16 ==> (x >> b) & 1u16 == 0u16) by (bit_vector);
        let piece = if bit_set(x, b) { seq![b] } else { Seq::<u16>::empty() };
        let rest = bits_from(x, i + 1);
        assert(bits_from(x, i) == piece + rest);
        assert forall|j: int| 0 <= j < bits_from(x, i).len() implies #[trigger] bits_from(x, i)[j]
            < 9 && bits_from(x, i)[j] >= i by {
            if j < piece.len() {
                assert(bits_from(x, i)[j] == b);
            } else {
                assert(bits_from(x, i)[j] == rest[j - piece.len()]);
            }
        }
    }
}

/// A stored style that can be applied to values.
#[derive(Debug, Clone, Copy, PartialEq, Eq, Structural)]
pub struct Style {
    pub fg: Option<Color>,
    pub bg: Option<Color>,
    pub fg_bright: bool,
    pub bg_bright: bool,
    pub attrs: Attributes,
    pub force: Option<bool>,
    pub for_stderr: bool,
}

/// The style with no color and no attribute, following the stream's setting.
pub open spec fn plain_style() -> Style {
    Style {
        fg: None,
        bg: None,
        fg_bright: false,
        bg_bright: false,
        attrs: Attributes(0),
        force: None,
        for_stderr: false,
    }
}

impl Default for Style {
    fn default() -> (r: Style)
        ensures
            r == plain_style(),
    {
        Style::new()
    }
}

impl Style {
    pub open spec fn with_fg(self, color: Color) -> Style {
        Style { fg: Some(color), ..self }
    }

    pub open spec fn with_bg(self, color: Color) -> Style {
        Style { bg: Some(color), ..self }
    }

    pub open spec fn with_attr(self, attr: Attribute) -> Style {
        Style { attrs: Attributes(self.attrs.0 | (1u16 << attr.index() as u16)), ..self }
    }

    /// Returns the empty style.
    pub fn new() -> (r: Style)
        ensures
            r == plain_style(),
    {
        Style {
            fg: None,
            bg: None,
            fg_bright: false,
            bg_bright: false,
            attrs: Attributes::new(),
            force: None,
            for_stderr: false,
        }
    }

    /// Applies the style to a value.
    pub fn apply_to<D>(&self, val: D) -> (r: StyledObject<D>)
        ensures
            r.style == *self,
            r.val == val,
    {
        StyledObject { style: *self, val }
    }

    /// Forces styling on or off, whatever the stream's setting.
    pub fn force_styling(self, value: bool) -> (r: Style)
        ensures
            r == (Style { force: Some(value), ..self }),
    {
        Style { force: Some(value), ..self }
    }

    /// The style is for text written to stderr.
    pub fn for_stderr(self) -> (r: Style)
        ensures
            r == (Style { for_stderr: true, ..self }),
    {
        Style { for_stderr: true, ..self }
    }

    /// The style is for text written to stdout, as by default.
    pub fn for_stdout(self) -> (r: Style)
        ensures
            r == (Style { for_stderr: false, ..self }),
    {
        Style { for_stderr: false, ..self }
    }

    /// Sets the foreground color.
    pub fn fg(self, color: Color) -> (r: Style)
        ensures
            r == self.with_fg(color),
    {
        Style { fg: Some(color), ..self }
    }

    /// Sets the background color.
    pub fn bg(self, color: Color) -> (r: Style)
        ensures
            r == self.with_bg(color),
    {
        Style { bg: Some(color), ..self }
    }

    /// Adds an attribute.
    pub fn attr(self, attr: Attribute) -> (r: Style)
        ensures
            r == self.with_attr(attr),
    {
        Style { attrs: self.attrs.insert(attr), ..self }
    }

    pub fn black(self) -> (r: Style)
        ensures
            r == self.with_fg(Color::Black),
    {
        self.fg(Color::Black)
    }

    pub fn red(self) -> (r: Style)
        ensures
            r == self.with_fg(Color::Red),
    {
        self.fg(Color::Red)
    }

    pub fn green(self) -> (r: Style)
        ensures
            r == self.with_fg(Color::Green),
    {
        self.fg(Color::Green)
    }

    pub fn yellow(self) -> (r: Style)
        ensures
            r == self.with_fg(Color::Yellow),
    {
        self.fg(Color::Yellow)
    }

    pub fn blue(self) -> (r: Style)
        ensures
            r == self.with_fg(Color::Blue),
    {
        self.fg(Color::Blue)
    }

    pub fn magenta(self) -> (r: Style)
        ensures
            r == self.with_fg(Color::Magenta),
    {
        self.fg(Color::Magenta)
    }

    pub fn cyan(self) -> (r: Style)
        ensures
            r == self.with_fg(Color::Cyan),
    {
        self.fg(Color::Cyan)
    }

    pub fn white(self) -> (r: Style)
        ensures
            r == self.with_fg(Color::White),
    {
        self.fg(Color::White)
    }

    pub fn color256(self, color: u8) -> (r: Style)
        ensures
            r == self.with_fg(Color::Color256(color)),
    {
        self.fg(Color::Color256(color))
    }

    pub fn bright(self) -> (r: Style)
        ensures
            r == (Style { fg_bright: true, ..self }),
    {
        Style { fg_bright: true, ..self }
    }

    pub fn on_black(self) -> (r: Style)
        ensures
            r == self.with_bg(Color::Black),
    {
        self.bg(Color::Black)
    }

    pub fn on_red(self) -> (r: Style)
        ensures
            r == self.with_bg(Color::Red),
    {
        self.bg(Color::Red)
    }

    pub fn on_green(self) -> (r: Style)
        ensures
            r == self.with_bg(Color::Green),
    {
        self.bg(Color::Green)
    }

    pub fn on_yellow(self) -> (r: Style)
        ensures
            r == self.with_bg(Color::Yellow),
    {
        self.bg(Color::Yellow)
    }

    pub fn on_blue(self) -> (r: Style)
        ensures
            r == self.with_bg(Color::Blue),
    {
        self.bg(Color::Blue)
    }

    pub fn on_magenta(self) -> (r: Style)
        ensures
            r == self.with_bg(Color::Magenta),
    {
        self.bg(Color::Magenta)
    }

    pub fn on_cyan(self) -> (r: Style)
        ensures
            r == self.with_bg(Color::Cyan),
    {
        self.bg(Color::Cyan)
    }

    pub fn on_white(self) -> (r: Style)
        ensures
            r == self.with_bg(Color::White),
    {
        self.bg(Color::White)
    }

    pub fn on_color256(self, color: u8) -> (r: Style)
        ensures
            r == self.with_bg(Color::Color256(color)),
    {
        self.bg(Color::Color256(color))
    }

    pub fn on_bright(self) -> (r: Style)
        ensures
            r == (Style { bg_bright: true, ..self }),
    {
        Style { bg_bright: true, ..self }
    }

    pub fn bold(self) -> (r: Style)
        ensures
            r == self.with_attr(Attribute::Bold),
    {
        self.attr(Attribute::Bold)
    }

    pub fn dim(self) -> (r: Style)
        ensures
            r == self.with_attr(Attribute::Dim),
    {
        self.attr(Attribute::Dim)
    }

    pub fn italic(self) -> (r: Style)
        ensures
            r == self.with_attr(Attribute::Italic),
    {
        self.attr(Attribute::Italic)
    }

    pub fn underlined(self) -> (r: Style)
        ensures
            r == self.with_attr(Attribute::Underlined),
    {
        self.attr(Attribute::Underlined)
    }

    pub fn blink(self) -> (r: Style)
        ensures
            r == self.with_attr(Attribute::Blink),
    {
        self.attr(Attribute::Blink)
    }

    pub fn blink_fast(self) -> (r: Style)
        ensures
            r == self.with_attr(Attribute::BlinkFast),
    {
        self.attr(Attribute::BlinkFast)
    }

    pub fn reverse(self) -> (r: Style)
        ensures
            r == self.with_attr(Attribute::Reverse),
    {
        self.attr(Attribute::Reverse)
    }

    pub fn hidden(self) -> (r: Style)
        ensures
            r == self.with_attr(Attribute::Hidden),
    {
        self.attr(Attribute::Hidden)
    }

    pub fn strikethrough(self) -> (r: Style)
        ensures
            r == self.with_attr(Attribute::StrikeThrough),
    {
        self.attr(Attribute::StrikeThrough)
    }
}

/// Wraps `val` in the empty style.
pub fn style<D>(val: D) -> (r: StyledObject<D>)
    ensures
        r.style == plain_style(),
        r.val == val,
{
    Style::new().apply_to(val)
}

/// A value with a style to render it in.
#[derive(Clone)]
pub struct StyledObject<D> {
    pub style: Style,
    pub val: D,
}

impl<D> StyledObject<D> {
    /// Forces styling on or off, whatever the stream's setting.
    pub fn force_styling(self, value: bool) -> (r: StyledObject<D>)
        ensures
            r.style == (Style { force: Some(value), ..self.style }),
            r.val == self.val,
    {
        StyledObject { style: self.style.force_styling(value), val: self.val }
    }

    /// The value is written to stderr.
    pub fn for_stderr(self) -> (r: StyledObject<D>)
        ensures
            r.style == (Style { for_stderr: true, ..self.style }),
            r.val == self.val,
    {
        StyledObject { style: self.style.for_stderr(), val: self.val }
    }

    /// The value is written to stdout, as by default.
    pub fn for_stdout(self) -> (r: StyledObject<D>)
        ensures
            r.style == (Style { for_stderr: false, ..self.style }),
            r.val == self.val,
    {
        StyledObject { style: self.style.for_stdout(), val: self.val }
    }

    /// Sets the foreground color.
    pub fn fg(self, color: Color) -> (r: StyledObject<D>)
        ensures
            r.style == self.style.with_fg(color),
            r.val == self.val,
    {
        StyledObject { style: self.style.fg(color), val: self.val }
    }

    /// Sets the background color.
    pub fn bg(self, color: Color) -> (r: StyledObject<D>)
        ensures
            r.style == self.style.with_bg(color),
            r.val == self.val,
    {
        StyledObject { style: self.style.bg(color), val: self.val }
    }

    /// Adds an attribute.
    pub fn attr(self, attr: Attribute) -> (r: StyledObject<D>)
        ensures
            r.style == self.style.with_attr(attr),
            r.val == self.val,
    {
        StyledObject { style: self.style.attr(attr), val: self.val }
    }

    pub fn black(self) -> (r: StyledObject<D>)
        ensures
            r.style == self.style.with_fg(Color::Black),
            r.val == self.val,
    {
        self.fg(Color::Black)
    }

    pub fn red(self) -> (r: StyledObject<D>)
        ensures
            r.style == self.style.with_fg(Color::Red),
            r.val == self.val,
    {
        self.fg(Color::Red)
    }

    pub fn green(self) -> (r: StyledObject<D>)
        ensures
            r.style == self.style.with_fg(Color::Green),
            r.val == self.val,
    {
        self.fg(Color::Green)
    }

    pub fn yellow(self) -> (r: StyledObject<D>)
        ensures
            r.style == self.style.with_fg(Color::Yellow),
            r.val == self.val,
    {
        self.fg(Color::Yellow)
    }

    pub fn blue(self) -> (r: StyledObject<D>)
        ensures
            r.style == self.style.with_fg(Color::Blue),
            r.val == self.val,
    {
        self.fg(Color::Blue)
    }

    pub fn magenta(self) -> (r: StyledObject<D>)
        ensures
            r.style == self.style.with_fg(Color::Magenta),
            r.val == self.val,
    {
        self.fg(Color::Magenta)
    }

    pub fn cyan(self) -> (r: StyledObject<D>)
        ensures
            r.style == self.style.with_fg(Color::Cyan),
            r.val == self.val,
    {
        self.fg(Color::Cyan)
    }

    pub fn white(self) -> (r: StyledObject<D>)
        ensures
            r.style == self.style.with_fg(Color::White),
            r.val == self.val,
    {
        self.fg(Color::White)
    }

    pub fn color256(self, color: u8) -> (r: StyledObject<D>)
        ensures
            r.style == self.style.with_fg(Color::Color256(color)),
            r.val == self.val,
    {
        self.fg(Color::Color256(color))
    }

    pub fn bright(self) -> (r: StyledObject<D>)
        ensures
            r.style == (Style { fg_bright: true, ..self.style }),
            r.val == self.val,
    {
        StyledObject { style: self.style.bright(), val: self.val }
    }

    pub fn on_black(self) -> (r: StyledObject<D>)
        ensures
            r.style == self.style.with_bg(Color::Black),
            r.val == self.val,
    {
        self.bg(Color::Black)
    }

    pub fn on_red(self) -> (r: StyledObject<D>)
        ensures
            r.style == self.style.with_bg(Color::Red),
            r.val == self.val,
    {
        self.bg(Color::Red)
    }

    pub fn on_green(self) -> (r: StyledObject<D>)
        ensures
            r.style == self.style.with_bg(Color::Green),
            r.val == self.val,
    {
        self.bg(Color::Green)
    }

    pub fn on_yellow(self) -> (r: StyledObject<D>)
        ensures
            r.style == self.style.with_bg(Color::Yellow),
            r.val == self.val,
    {
        self.bg(Color::Yellow)
    }

    pub fn on_blue(self) -> (r: StyledObject<D>)
        ensures
            r.style == self.style.with_bg(Color::Blue),
            r.val == self.val,
    {
        self.bg(Color::Blue)
    }

    pub fn on_magenta(self) -> (r: StyledObject<D>)
        ensures
            r.style == self.style.with_bg(Color::Magenta),
            r.val == self.val,
    {
        self.bg(Color::Magenta)
    }

    pub fn on_cyan(self) -> (r: StyledObject<D>)
        ensures
            r.style == self.style.with_bg(Color::Cyan),
            r.val == self.val,
    {
        self.bg(Color::Cyan)
    }

    pub fn on_white(self) -> (r: StyledObject<D>)
        ensures
            r.style == self.style.with_bg(Color::White),
            r.val == self.val,
    {
        self.bg(Color::White)
    }

    pub fn on_color256(self, color: u8) -> (r: StyledObject<D>)
        ensures
            r.style == self.style.with_bg(Color::Color256(color)),
            r.val == self.val,
    {
        self.bg(Color::Color256(color))
    }

    pub fn on_bright(self) -> (r: StyledObject<D>)
        ensures
            r.style == (Style { bg_bright: true, ..self.style }),
            r.val == self.val,
    {
        StyledObject { style: self.style.on_bright(), val: self.val }
    }

    pub fn bold(self) -> (r: StyledObject<D>)
        ensures
            r.style == self.style.with_attr(Attribute::Bold),
            r.val == self.val,
    {
        self.attr(Attribute::Bold)
    }

    pub fn dim(self) -> (r: StyledObject<D>)
        ensures
            r.style == self.style.with_attr(Attribute::Dim),
            r.val == self.val,
    {
        self.attr(Attribute::Dim)
    }

    pub fn italic(self) -> (r: StyledObject<D>)
        ensures
            r.style == self.style.with_attr(Attribute::Italic),
            r.val == self.val,
    {
        self.attr(Attribute::Italic)
    }

    pub fn underlined(self) -> (r: StyledObject<D>)
        ensures
            r.style == self.style.with_attr(Attribute::Underlined),
            r.val == self.val,
    {
        self.attr(Attribute::Underlined)
    }

    pub fn blink(self) -> (r: StyledObject<D>)
        ensures
            r.style == self.style.with_attr(Attribute::Blink),
            r.val == self.val,
    {
        self.attr(Attribute::Blink)
    }

    pub fn blink_fast(self) -> (r: StyledObject<D>)
        ensures
            r.style == self.style.with_attr(Attribute::BlinkFast),
            r.val == self.val,
    {
        self.attr(Attribute::BlinkFast)
    }

    pub fn reverse(self) -> (r: StyledObject<D>)
        ensures
            r.style == self.style.with_attr(Attribute::Reverse),
            r.val == self.val,
    {
        self.attr(Attribute::Reverse)
    }

    pub fn hidden(self) -> (r: StyledObject<D>)
        ensures
            r.style == self.style.with_attr(Attribute::Hidden),
            r.val == self.val,
    {
        self.attr(Attribute::Hidden)
    }

    pub fn strikethrough(self) -> (r: StyledObject<D>)
        ensures
            r.style == self.style.with_attr(Attribute::StrikeThrough),
            r.val == self.val,
    {
        self.attr(Attribute::StrikeThrough)
    }
}

/// The decimal digit `d`.
pub open spec fn digit(d: nat) -> char {
    (d + 48) as char
}

/// `n` written in decimal.
pub open spec fn decimal(n: nat) -> Seq<char>
    decreases n,
{
    if n < 10 {
        seq![digit(n)]
    } else {
        decimal(n / 10) + seq![digit(n % 10)]
    }
}

/// The SGR escape sequence with parameters `params`.
pub open spec fn sgr(params: Seq<char>) -> Seq<char> {
    seq!['\u{1b}', '['] + params + seq!['m']
}

/// The sequence that sets color `c`: `base` is where the eight basic colors
/// start (30 for the foreground, 40 for the background), and `base + 8` selects
/// from the 256-color palette, where the bright basic colors are eight on.
pub open spec fn color_code(c: Color, bright: bool, base: nat) -> Seq<char> {
    if c is Color256 {
        sgr(decimal(base + 8) + seq![';', '5', ';'] + decimal(c.number()))
    } else if bright {
        sgr(decimal(base + 8) + seq![';', '5', ';'] + decimal(c.number() + 8))
    } else {
        sgr(decimal(c.number() + base))
    }
}

/// The sequences that turn on the attributes with bits `bits`.
pub open spec fn attr_codes(bits: Seq<u16>) -> Seq<char>
    decreases bits.len(),
{
    if bits.len() == 0 {
        Seq::empty()
    } else {
        sgr(decimal((bits[0] + 1) as nat)) + attr_codes(bits.drop_first())
    }
}

/// The sequence that resets all styling.
pub open spec fn reset_code() -> Seq<char> {
    sgr(seq!['0'])
}

impl Style {
    /// Whether the style is rendered, where `colors_enabled` is the setting of
    /// the stream it is for.
    pub open spec fn active(self, colors_enabled: bool) -> bool {
        match self.force {
            Some(f) => f,
            None => colors_enabled,
        }
    }

    /// The sequences that start text in this style.
    pub open spec fn opening(self) -> Seq<char> {
        (match self.fg {
            Some(c) => color_code(c, self.fg_bright, 30),
            None => Seq::empty(),
        }) + (match self.bg {
            Some(c) => color_code(c, self.bg_bright, 40),
            None => Seq::empty(),
        }) + attr_codes(self.attrs.bit_seq())
    }

    /// Whether text in this style needs a reset after it.
    pub open spec fn needs_reset(self) -> bool {
        self.fg is Some || self.bg is Some || self.attrs.0 != 0
    }

    /// `val` rendered in this style.
    pub open spec fn rendered(self, val: Seq<char>, colors_enabled: bool) -> Seq<char> {
        if self.active(colors_enabled) {
            self.opening() + val + if self.needs_reset() {
                reset_code()
            } else {
                Seq::empty()
            }
        } else {
            val
        }
    }

    /// Renders `val` in this style. `colors_enabled` is the setting of the
    /// stream that the style is for; a forced style ignores it.
    pub fn render(&self, val: &str, colors_enabled: bool) -> (r: String)
        ensures
            r@ == self.rendered(val@, colors_enabled),
    {
        let on = match self.force {
            Some(f) => f,
            None => colors_enabled,
        };
        let mut out = String::new();
        if !on {
            out.append(val);
            return out;
        }
        let mut reset = false;
        if let Some(fg) = self.fg {
            push_color(&mut out, fg, self.fg_bright, 30);
            reset = true;
        }
        let ghost after_fg = out@;
        if let Some(bg) = self.bg {
            push_color(&mut out, bg, self.bg_bright, 40);
            reset = true;
        }
        let ghost after_bg = out@;
        if !self.attrs.is_empty() {
            let bits = self.attrs.bits();
            let mut k: usize = 0;
            proof {
                lemma_bits_range(self.attrs.0, 0);
                assert(bits@.subrange(0, bits@.len() as int) =~= bits@);
            }
            while k < bits.len()
                invariant
                    k <= bits@.len(),
                    bits@ == self.attrs.bit_seq(),
                    forall|j: int| 0 <= j < bits@.len() ==> #[trigger] bits@[j] < 16,
                    out@ + attr_codes(bits@.subrange(k as int, bits@.len() as int)) == after_bg
                        + attr_codes(self.attrs.bit_seq()),
                decreases bits.len() - k,
            {
                let ghost acc = out@;
                let ghost rest = bits@.subrange(k as int, bits@.len() as int);
                assert(rest.drop_first() =~= bits@.subrange(k + 1, bits@.len() as int));
                push_sgr_number(&mut out, bits[k] as usize + 1);
                assert(acc + (sgr(decimal((bits@[k as int] + 1) as nat)) + attr_codes(
                    rest.drop_first(),
                )) =~= out@ + attr_codes(rest.drop_first()));
                k = k + 1;
            }
            reset = true;
            assert(bits@.subrange(k as int, bits@.len() as int) =~= Seq::<u16>::empty());
        } else {
            assert(self.attrs.bit_seq() =~= Seq::<u16>::empty()) by {
                lemma_no_bits(self.attrs.0, 0);
            }
        }
        let ghost before_val = out@;
        out.append(val);
        if reset {
            push_reset(&mut out);
        }
        proof {
            assert(before_val =~= self.opening());
            if reset {
                assert(out@ =~= self.opening() + val@ + reset_code());
            } else {
                assert(out@ =~= self.opening() + val@ + Seq::<char>::empty());
            }
        }
        out
    }
}

/// Every set bit is a bit of a `u16`.
pub proof fn lemma_bits_range(x: u16, i: nat)
    ensures
        forall|j: int| 0 <= j < bits_from(x, i).len() ==> i <= #[trigger] bits_from(x, i)[j] < 16,
    decreases 16 - i,
{
    if i < 16 {
        lemma_bits_range(x, i + 1);
        let b = i as u16;
        let piece = if bit_set(x, b) { seq![b] } else { Seq::<u16>::empty() };
        let rest = bits_from(x, i + 1);
        assert(bits_from(x, i) == piece + rest);
        assert forall|j: int| 0 <= j < bits_from(x, i).len() implies i <= #[trigger] bits_from(
            x,
            i,
        )[j] < 16 by {
            if j < piece.len() {
                assert(bits_from(x, i)[j] == b);
            } else {
                assert(bits_from(x, i)[j] == rest[j - piece.len()]);
            }
        }
    }
}

/// The empty set has no bits.
pub proof fn lemma_no_bits(x: u16, i: nat)
    requires
        x == 0,
    ensures
        bits_from(x, i) == Seq::<u16>::empty(),
    decreases 16 - i,
{
    if i < 16 {
        lemma_no_bits(x, i + 1);
        let b = i as u16;
        assert((0u16 >> b) & 1u16 == 0u16) by (bit_vector);
        assert(bits_from(x, i) =~= Seq::<u16>::empty());
    }
}

/// The decimal digit `d`.
fn digit_char(d: usize) -> (r: char)
    requires
        d < 10,
    ensures
        r == digit(d as nat),
{
    ((d as u8) + 48u8) as char
}

/// Adds `n`, written in decimal, at the end of `s`.
pub(crate) fn push_decimal(s: &mut String, n: usize)
    ensures
        final(s)@ == old(s)@ + decimal(n as nat),
    decreases n,
{
    if n >= 10 {
        push_decimal(s, n / 10);
    }
    crate::text::push_char(s, digit_char(n % 10));
    assert(final(s)@ =~= old(s)@ + decimal(n as nat));
}

fn push_csi(s: &mut String)
    ensures
        final(s)@ == old(s)@ + seq!['\u{1b}', '['],
{
    crate::text::push_char(s, '\u{1b}');
    crate::text::push_char(s, '[');
    assert(final(s)@ =~= old(s)@ + seq!['\u{1b}', '[']);
}

/// Adds the SGR sequence with the single parameter `n`.
fn push_sgr_number(s: &mut String, n: usize)
    ensures
        final(s)@ == old(s)@ + sgr(decimal(n as nat)),
{
    push_csi(s);
    push_decimal(s, n);
    crate::text::push_char(s, 'm');
    assert(final(s)@ =~= old(s)@ + sgr(decimal(n as nat)));
}

fn push_reset(s: &mut String)
    ensures
        final(s)@ == old(s)@ + reset_code(),
{
    push_csi(s);
    crate::text::push_char(s, '0');
    crate::text::push_char(s, 'm');
    assert(final(s)@ =~= old(s)@ + reset_code());
}

/// Adds the sequence that sets color `c`; see `color_code`.
fn push_color(s: &mut String, c: Color, bright: bool, base: usize)
    requires
        base == 30 || base == 40,
    ensures
        final(s)@ == old(s)@ + color_code(c, bright, base as nat),
{
    if c.is_color256() || bright {
        push_csi(s);
        push_decimal(s, base + 8);
        crate::text::push_char(s, ';');
        crate::text::push_char(s, '5');
        crate::text::push_char(s, ';');
        if c.is_color256() {
            push_decimal(s, c.ansi_num());
        } else {
            push_decimal(s, c.ansi_num() + 8);
        }
        crate::text::push_char(s, 'm');
    } else {
        push_csi(s);
        push_decimal(s, c.ansi_num() + base);
        crate::text::push_char(s, 'm');
    }
    assert(final(s)@ =~= old(s)@ + color_code(c, bright, base as nat));
}

impl<'a> StyledObject<&'a str> {
    /// Renders the value in its style; `colors_enabled` is the setting of the
    /// stream that the style is for.
    pub fn render(&self, colors_enabled: bool) -> (r: String)
        ensures
            r@ == self.style.rendered(self.val@, colors_enabled),
    {
        self.style.render(self.val, colors_enabled)
    }
}

/// An emoji, with the text to show in its place where emojis are not wanted.
#[derive(Clone, Copy)]
pub struct Emoji<'a, 'b>(pub &'a str, pub &'b str);

impl<'a, 'b> Emoji<'a, 'b> {
    pub fn new(emoji: &'a str, fallback: &'b str) -> (r: Emoji<'a, 'b>)
        ensures
            r.0 == emoji,
            r.1 == fallback,
    {
        Emoji(emoji, fallback)
    }

    /// The emoji where emojis are wanted, else the fallback.
    pub fn render(&self, wants_emoji: bool) -> (r: &str)
        ensures
            r@ == if wants_emoji {
                self.0@
            } else {
                self.1@
            },
    {
        if wants_emoji {
            self.0
        } else {
            self.1
        }
    }
}

/// The parts of `s` between its dots, in order; at least one, maybe empty.
pub open spec fn dot_parts(s: Seq<char>) -> Seq<Seq<char>>
    decreases s.len(),
{
    if s.len() == 0 {
        seq![Seq::empty()]
    } else {
        let p = dot_parts(s.drop_last());
        if s.last() == '.' {
            p.push(Seq::empty())
        } else {
            p.update(p.len() - 1, p.last().push(s.last()))
        }
    }
}

/// The value of the decimal digits `t`.
pub open spec fn digits_value(t: Seq<char>) -> int
    decreases t.len(),
{
    if t.len() == 0 {
        0
    } else {
        digits_value(t.drop_last()) * 10 + (t.last() as int - 48)
    }
}

/// Every character of `d` is a decimal digit.
pub open spec fn all_digits(d: Seq<char>) -> bool {
    forall|i: int| 0 <= i < d.len() ==> '0' <= #[trigger] d[i] <= '9'
}

/// `t` read as a `u8` the way Rust reads one: an optional `+`, then one or
/// more decimal digits, worth at most 255.
pub open spec fn parse_u8(t: Seq<char>) -> Option<u8> {
    let d = if t.len() > 0 && t[0] == '+' {
        t.drop_first()
    } else {
        t
    };
    if d.len() > 0 && all_digits(d) && digits_value(d) <= 255 {
        Some(digits_value(d) as u8)
    } else {
        None
    }
}

/// Reads `part[from..]` as a `u8`; see `parse_u8`.
fn parse_u8_at(part: &Vec<char>, from: usize) -> (r: Option<u8>)
    requires
        from <= part@.len(),
    ensures
        r == parse_u8(part@.subrange(from as int, part@.len() as int)),
{
    let ghost t = part@.subrange(from as int, part@.len() as int);
    let mut i = from;
    if i < part.len() && part[i] == '+' {
        i = i + 1;
    }
    let ghost d = part@.subrange(i as int, part@.len() as int);
    proof {
        assert(t.len() > 0 ==> t[0] == part@[from as int]);
        if t.len() > 0 && t[0] == '+' {
            assert(t.drop_first() =~= d);
        } else {
            assert(t =~= d);
        }
    }
    if i >= part.len() {
        return None;
    }
    let start = i;
    let mut value: u32 = 0;
    while i < part.len()
        invariant
            start <= i <= part@.len(),
            from <= part@.len(),
            d == part@.subrange(start as int, part@.len() as int),
            t == part@.subrange(from as int, part@.len() as int),
            t.len() > 0 && t[0] == '+' ==> t.drop_first() == d,
            !(t.len() > 0 && t[0] == '+') ==> t == d,
            forall|j: int| start <= j < i ==> '0' <= #[trigger] part@[j] <= '9',
            value == digits_value(part@.subrange(start as int, i as int)),
            value <= 255,
        decreases part.len() - i,
    {
        let c = part[i];
        if !('0' <= c && c <= '9') {
            assert(d[i - start] == c);
            return None;
        }
        assert(part@.subrange(start as int, i + 1).drop_last() =~= part@.subrange(start as int, i as int));
        value = value * 10 + (c as u32 - 48);
        i = i + 1;
        if value > 255 {
            proof {
                assert(part@.subrange(start as int, i as int) =~= d.subrange(0, (i - start) as int));
                if all_digits(d) {
                    lemma_digits_grow(d, (i - start) as int);
                }
            }
            return None;
        }
    }
    assert(part@.subrange(start as int, i as int) =~= d);
    Some(value as u8)
}

/// More digits never give a smaller value.
pub proof fn lemma_digits_grow(d: Seq<char>, k: int)
    requires
        0 <= k <= d.len(),
        forall|i: int| 0 <= i < d.len() ==> '0' <= #[trigger] d[i] <= '9',
    ensures
        digits_value(d.subrange(0, k)) <= digits_value(d),
        digits_value(d) >= 0,
    decreases d.len(),
{
    if d.len() > 0 {
        let e = d.drop_last();
        if k < d.len() {
            lemma_digits_grow(e, k);
            assert(e.subrange(0, k) =~= d.subrange(0, k));
        } else {
            lemma_digits_grow(e, 0);
            assert(d.subrange(0, k) =~= d);
        }
    }
}

/// `part` is the word `w`.
fn is_word(part: &Vec<char>, w: &str) -> (r: bool)
    ensures
        r == (part@ == w@),
{
    let wc = crate::ansi::chars_of(w);
    if part.len() != wc.len() {
        return false;
    }
    let mut i: usize = 0;
    while i < part.len()
        invariant
            i <= part@.len() == wc@.len(),
            wc@ == w@,
            forall|j: int| 0 <= j < i ==> part@[j] == wc@[j],
        decreases part.len() - i,
    {
        if part[i] != wc[i] {
            return false;
        }
        i = i + 1;
    }
    assert(part@ =~= wc@);
    true
}

/// What one part of a dotted style name does to `st`. Unknown parts do
/// nothing.
pub open spec fn apply_term(st: Style, part: Seq<char>) -> Style {
    if part == "black"@ {
        st.with_fg(Color::Black)
    } else if part == "red"@ {
        st.with_fg(Color::Red)
    } else if part == "green"@ {
        st.with_fg(Color::Green)
    } else if part == "yellow"@ {
        st.with_fg(Color::Yellow)
    } else if part == "blue"@ {
        st.with_fg(Color::Blue)
    } else if part == "magenta"@ {
        st.with_fg(Color::Magenta)
    } else if part == "cyan"@ {
        st.with_fg(Color::Cyan)
    } else if part == "white"@ {
        st.with_fg(Color::White)
    } else if part == "bright"@ {
        (Style { fg_bright: true, ..st })
    } else if part == "on_black"@ {
        st.with_bg(Color::Black)
    } else if part == "on_red"@ {
        st.with_bg(Color::Red)
    } else if part == "on_green"@ {
        st.with_bg(Color::Green)
    } else if part == "on_yellow"@ {
        st.with_bg(Color::Yellow)
    } else if part == "on_blue"@ {
        st.with_bg(Color::Blue)
    } else if part == "on_magenta"@ {
        st.with_bg(Color::Magenta)
    } else if part == "on_cyan"@ {
        st.with_bg(Color::Cyan)
    } else if part == "on_white"@ {
        st.with_bg(Color::White)
    } else if part == "on_bright"@ {
        (Style { bg_bright: true, ..st })
    } else if part == "bold"@ {
        st.with_attr(Attribute::Bold)
    } else if part == "dim"@ {
        st.with_attr(Attribute::Dim)
    } else if part == "underlined"@ {
        st.with_attr(Attribute::Underlined)
    } else if part == "blink"@ {
        st.with_attr(Attribute::Blink)
    } else if part == "blink_fast"@ {
        st.with_attr(Attribute::BlinkFast)
    } else if part == "reverse"@ {
        st.with_attr(Attribute::Reverse)
    } else if part == "hidden"@ {
        st.with_attr(Attribute::Hidden)
    } else if part == "strikethrough"@ {
        st.with_attr(Attribute::StrikeThrough)
    } else if part.len() >= 3 && part[0] == 'o' && part[1] == 'n' && part[2] == '_' {
        match parse_u8(part.subrange(3, part.len() as int)) {
            Some(n) => st.with_bg(Color::Color256(n)),
            None => st,
        }
    } else {
        match parse_u8(part) {
            Some(n) => st.with_fg(Color::Color256(n)),
            None => st,
        }
    }
}

/// The style that the parts `parts` make, applied in order to `st`.
pub open spec fn apply_terms(st: Style, parts: Seq<Seq<char>>) -> Style
    decreases parts.len(),
{
    if parts.len() == 0 {
        st
    } else {
        apply_term(apply_terms(st, parts.drop_last()), parts.last())
    }
}

fn apply_term_exec(rv: Style, part: &Vec<char>) -> (r: Style)
    ensures
        r == apply_term(rv, part@),
{
    assert(part@.subrange(0, part@.len() as int) =~= part@);
    if is_word(part, "black") {
        rv.black()
    } else if is_word(part, "red") {
        rv.red()
    } else if is_word(part, "green") {
        rv.green()
    } else if is_word(part, "yellow") {
        rv.yellow()
    } else if is_word(part, "blue") {
        rv.blue()
    } else if is_word(part, "magenta") {
        rv.magenta()
    } else if is_word(part, "cyan") {
        rv.cyan()
    } else if is_word(part, "white") {
        rv.white()
    } else if is_word(part, "bright") {
        rv.bright()
    } else if is_word(part, "on_black") {
        rv.on_black()
    } else if is_word(part, "on_red") {
        rv.on_red()
    } else if is_word(part, "on_green") {
        rv.on_green()
    } else if is_word(part, "on_yellow") {
        rv.on_yellow()
    } else if is_word(part, "on_blue") {
        rv.on_blue()
    } else if is_word(part, "on_magenta") {
        rv.on_magenta()
    } else if is_word(part, "on_cyan") {
        rv.on_cyan()
    } else if is_word(part, "on_white") {
        rv.on_white()
    } else if is_word(part, "on_bright") {
        rv.on_bright()
    } else if is_word(part, "bold") {
        rv.bold()
    } else if is_word(part, "dim") {
        rv.dim()
    } else if is_word(part, "underlined") {
        rv.underlined()
    } else if is_word(part, "blink") {
        rv.blink()
    } else if is_word(part, "blink_fast") {
        rv.blink_fast()
    } else if is_word(part, "reverse") {
        rv.reverse()
    } else if is_word(part, "hidden") {
        rv.hidden()
    } else if is_word(part, "strikethrough") {
        rv.strikethrough()
    } else if part.len() >= 3 && part[0] == 'o' && part[1] == 'n' && part[2] == '_' {
        match parse_u8_at(part, 3) {
            Some(n) => rv.on_color256(n),
            None => rv,
        }
    } else {
        match parse_u8_at(part, 0) {
            Some(n) => rv.color256(n),
            None => rv,
        }
    }
}

impl Style {
    /// Reads a style from a dotted name, such as `red.on_blue` or `9.on_12`
    /// (256-color numbers): the parts between the dots are applied in order,
    /// and unknown parts are ignored.
    pub fn from_dotted_str(s: &str) -> (r: Style)
        ensures
            r == apply_terms(plain_style(), dot_parts(s@)),
    {
        let cs = crate::ansi::chars_of(s);
        let mut rv = Style::new();
        let mut part: Vec<char> = Vec::new();
        let ghost mut done: Seq<Seq<char>> = Seq::empty();
        let mut i: usize = 0;
        assert(cs@.subrange(0, 0) =~= Seq::<char>::empty());
        while i < cs.len()
            invariant
                i <= cs@.len(),
                cs@ == s@,
                dot_parts(cs@.subrange(0, i as int)) == done.push(part@),
                rv == apply_terms(plain_style(), done),
            decreases cs.len() - i,
        {
            let c = cs[i];
            assert(cs@.subrange(0, i + 1).drop_last() =~= cs@.subrange(0, i as int));
            if c == '.' {
                rv = apply_term_exec(rv, &part);
                proof {
                    assert(done.push(part@).drop_last() =~= done);
                    done = done.push(part@);
                }
                part = Vec::new();
                assert(part@ =~= Seq::<char>::empty());
            } else {
                let ghost old_part = part@;
                part.push(c);
                assert(done.push(old_part).update(done.len() as int, old_part.push(c)) =~= done.push(
                    part@,
                ));
            }
            i = i + 1;
        }
        rv = apply_term_exec(rv, &part);
        proof {
            assert(cs@.subrange(0, i as int) =~= s@);
            assert(done.push(part@).drop_last() =~= done);
        }
        rv
    }
}

/// The name of an attribute.
pub open spec fn attr_name(a: Attribute) -> Seq<char> {
    match a {
        Attribute::Bold => "Bold"@,
        Attribute::Dim => "Dim"@,
        Attribute::Italic => "Italic"@,
        Attribute::Underlined => "Underlined"@,
        Attribute::Blink => "Blink"@,
        Attribute::BlinkFast => "BlinkFast"@,
        Attribute::Reverse => "Reverse"@,
        Attribute::Hidden => "Hidden"@,
        Attribute::StrikeThrough => "StrikeThrough"@,
    }
}

pub fn attribute_name(a: Attribute) -> (r: &'static str)
    ensures
        r@ == attr_name(a),
{
    match a {
        Attribute::Bold => "Bold",
        Attribute::Dim => "Dim",
        Attribute::Italic => "Italic",
        Attribute::Underlined => "Underlined",
        Attribute::Blink => "Blink",
        Attribute::BlinkFast => "BlinkFast",
        Attribute::Reverse => "Reverse",
        Attribute::Hidden => "Hidden",
        Attribute::StrikeThrough => "StrikeThrough",
    }
}

/// The names of the attributes with bits `bits`, each after `", "` but the
/// first.
pub open spec fn names_list(bits: Seq<u16>) -> Seq<char>
    decreases bits.len(),
{
    if bits.len() == 0 {
        Seq::empty()
    } else {
        names_list(bits.drop_last()) + (if bits.len() > 1 {
            seq![',', ' ']
        } else {
            Seq::<char>::empty()
        }) + attr_name(Attribute::of_index(bits.last() as nat))
    }
}

impl Attributes {
    /// The set written as `{Bold, Italic}`, its attributes in the order of
    /// their bits.
    pub fn describe(self) -> (r: String)
        ensures
            r@ == seq!['{'] + names_list(self.bit_seq()) + seq!['}'],
    {
        let bits = self.bits();
        let mut out = String::new();
        crate::text::push_char(&mut out, '{');
        let mut k: usize = 0;
        proof {
            lemma_bits_range(self.0, 0);
            assert(bits@.subrange(0, 0) =~= Seq::<u16>::empty());
        }
        while k < bits.len()
            invariant
                k <= bits@.len(),
                bits@ == self.bit_seq(),
                forall|j: int| 0 <= j < bits@.len() ==> #[trigger] bits@[j] < 16,
                out@ == seq!['{'] + names_list(bits@.subrange(0, k as int)),
            decreases bits.len() - k,
        {
            let ghost acc = out@;
            if k > 0 {
                crate::text::push_char(&mut out, ',');
                crate::text::push_char(&mut out, ' ');
            }
            let b = bits[k];
            let a = if b < 9 {
                Attribute::from_bit(b)
            } else {
                Attribute::StrikeThrough
            };
            out.append(attribute_name(a));
            k = k + 1;
            assert(bits@.subrange(0, k as int).drop_last() =~= bits@.subrange(0, k - 1));
            assert(out@ =~= seq!['{'] + names_list(bits@.subrange(0, k as int)));
        }
        crate::text::push_char(&mut out, '}');
        assert(bits@.subrange(0, k as int) =~= bits@);
        out
    }
}

} // verus!
