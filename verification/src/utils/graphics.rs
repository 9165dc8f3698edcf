use vstd::prelude::*;

use crate::utils::text::{decimal, push_decimal};

verus! {

/// A terminal colour: a 24-bit RGB triple or an index into the 256-colour ANSI palette.
#[derive(Debug, Clone, Copy, PartialEq, Eq, Hash, Structural)]
pub enum Color {
    Rgb { r: u8, g: u8, b: u8 },
    Ansi(u8),
}

impl Color {
    pub fn rgb(r: u8, g: u8, b: u8) -> (color: Self)
        ensures
            color == (Color::Rgb { r, g, b }),
    {
        Color::Rgb { r, g, b }
    }

    pub fn ansi(value: u8) -> (color: Self)
        ensures
            color == Color::Ansi(value),
    {
        Color::Ansi(value)
    }

    /// The SGR parameter that selects this colour; `layer` is '3' for the foreground and
    /// '4' for the background ("38;2;r;g;b", "48;5;n", ...).
    pub open spec fn code(self, layer: char) -> Seq<char> {
        match self {
            Color::Rgb { r, g, b } => seq![layer, '8', ';', '2', ';'] + decimal(r as nat) + seq![';']
                + decimal(g as nat) + seq![';'] + decimal(b as nat),
            Color::Ansi(value) => seq![layer, '8', ';', '5', ';'] + decimal(value as nat),
        }
    }

    fn push_code(self, out: &mut String, layer: char)
        ensures
            final(out)@ == old(out)@ + self.code(layer),
    {
        let ghost start = out@;
        out.push(layer);
        out.push('8');
        out.push(';');
        match self {
            Color::Rgb { r, g, b } => {
                out.push('2');
                out.push(';');
                push_decimal(out, r);
                out.push(';');
                push_decimal(out, g);
                out.push(';');
                push_decimal(out, b);
                assert(out@ =~= start + self.code(layer));
            },
            Color::Ansi(value) => {
                out.push('5');
                out.push(';');
                push_decimal(out, value);
                assert(out@ =~= start + self.code(layer));
            },
        }
    }

    fn foreground_code(self) -> (code: String)
        ensures
            code@ == self.code('3'),
    {
        let mut code = String::new();
        self.push_code(&mut code, '3');
        assert(code@ =~= self.code('3'));
        code
    }

    fn background_code(self) -> (code: String)
        ensures
            code@ == self.code('4'),
    {
        let mut code = String::new();
        self.push_code(&mut code, '4');
        assert(code@ =~= self.code('4'));
        code
    }
}

/// The channels of a colour; a palette colour counts as a grey of its index.
pub open spec fn rgb_of(color: Color) -> (u8, u8, u8) {
    match color {
        Color::Rgb { r, g, b } => (r, g, b),
        Color::Ansi(value) => (value, value, value),
    }
}

/// The plain style with `color` as its foreground.
pub open spec fn foreground_only(color: Color) -> Style {
    Style { colors: ColorPair { foreground: Some(color), background: None }, ..plain_style() }
}

/// An optional foreground and an optional background colour.
#[derive(Debug, Clone, Copy, PartialEq, Eq, Hash, Structural)]
pub struct ColorPair {
    pub foreground: Option<Color>,
    pub background: Option<Color>,
}

impl Default for ColorPair {
    fn default() -> (pair: Self)
        ensures
            pair == (ColorPair { foreground: None, background: None }),
    {
        ColorPair { foreground: None, background: None }
    }
}

impl ColorPair {
    pub fn new(foreground: Option<Color>, background: Option<Color>) -> (pair: Self)
        ensures
            pair == (ColorPair { foreground, background }),
    {
        Self { foreground, background }
    }

    pub fn foreground(color: Color) -> (pair: Self)
        ensures
            pair == (ColorPair { foreground: Some(color), background: None }),
    {
        Self::new(Some(color), None)
    }

    pub fn background(color: Color) -> (pair: Self)
        ensures
            pair == (ColorPair { foreground: None, background: Some(color) }),
    {
        Self::new(None, Some(color))
    }
}

/// Colours plus the SGR text attributes of one cell.
#[derive(Debug, Clone, Copy, PartialEq, Eq, Structural)]
pub struct Style {
    pub colors: ColorPair,
    pub bold: bool,
    pub dim: bool,
    pub italic: bool,
    pub underline: bool,
    pub blink: bool,
    pub reverse: bool,
    pub hidden: bool,
    pub strike: bool,
}

/// The style with no colour and no attribute set.
pub open spec fn plain_style() -> Style {
    Style {
        colors: ColorPair { foreground: None, background: None },
        bold: false,
        dim: false,
        italic: false,
        underline: false,
        blink: false,
        reverse: false,
        hidden: false,
        strike: false,
    }
}

impl Default for Style {
    fn default() -> (style: Self)
        ensures
            style == plain_style(),
    {
        Style {
            colors: ColorPair::default(),
            bold: false,
            dim: false,
            italic: false,
            underline: false,
            blink: false,
            reverse: false,
            hidden: false,
            strike: false,
        }
    }
}

/// One attribute's parameter: `[code]` when the attribute is on, nothing otherwise.
pub open spec fn flag_code(on: bool, code: char) -> Seq<Seq<char>> {
    if on {
        seq![seq![code]]
    } else {
        Seq::empty()
    }
}

/// One colour's parameter, if the colour is set.
pub open spec fn color_code(color: Option<Color>, layer: char) -> Seq<Seq<char>> {
    match color {
        Some(color) => seq![color.code(layer)],
        None => Seq::empty(),
    }
}

/// The parameters of the attributes that are on, in the order the escape sequence lists them.
pub open spec fn attribute_codes(style: Style) -> Seq<Seq<char>> {
    flag_code(style.bold, '1') + flag_code(style.dim, '2') + flag_code(style.italic, '3')
        + flag_code(style.underline, '4') + flag_code(style.blink, '5') + flag_code(style.reverse, '7')
        + flag_code(style.hidden, '8') + flag_code(style.strike, '9')
}

/// The SGR parameters of a style: attributes, then foreground, then background.
pub open spec fn style_codes(style: Style) -> Seq<Seq<char>> {
    attribute_codes(style) + color_code(style.colors.foreground, '3') + color_code(
        style.colors.background,
        '4',
    )
}

/// The parameters separated by ';'.
pub open spec fn join_codes(codes: Seq<Seq<char>>) -> Seq<char>
    decreases codes.len(),
{
    if codes.len() == 0 {
        Seq::empty()
    } else if codes.len() == 1 {
        codes[0]
    } else {
        join_codes(codes.drop_last()) + seq![';'] + codes.last()
    }
}

/// The escape sequence that switches the terminal to `style`: empty for the plain style,
/// otherwise ESC '[' parameters 'm'.
pub open spec fn ansi_prefix_of(style: Style) -> Seq<char> {
    if style_codes(style).len() == 0 {
        Seq::empty()
    } else {
        seq!['\x1b', '['] + join_codes(style_codes(style)) + seq!['m']
    }
}

/// A style selects nothing exactly when it is the plain style: its escape sequence is
/// empty then, and starts with ESC '[' otherwise.
pub proof fn lemma_prefix_empty_iff_plain(style: Style)
    ensures
        (ansi_prefix_of(style).len() == 0) == (style == plain_style()),
        style != plain_style() ==> ansi_prefix_of(style).subrange(0, 2) == seq!['\x1b', '['],
{
    let codes = style_codes(style);
    if style == plain_style() {
        assert(codes =~= Seq::<Seq<char>>::empty());
    } else {
        assert(codes.len() > 0);
        assert(ansi_prefix_of(style).subrange(0, 2) =~= seq!['\x1b', '[']);
    }
}

proof fn lemma_join_push(codes: Seq<Seq<char>>, code: Seq<char>)
    ensures
        join_codes(codes + seq![code]) == if codes.len() == 0 {
            code
        } else {
            join_codes(codes) + seq![';'] + code
        },
{
    assert((codes + seq![code]).drop_last() =~= codes);
    assert((codes + seq![code]).last() == code);
}

fn push_code_entry(body: &mut String, has_codes: &mut bool, code: &str, Ghost(codes): Ghost<Seq<Seq<char>>>)
    requires
        old(body)@ == join_codes(codes),
        *old(has_codes) == (codes.len() > 0),
    ensures
        final(body)@ == join_codes(codes + seq![code@]),
        *final(has_codes),
{
    proof {
        lemma_join_push(codes, code@);
    }
    if *has_codes {
        body.push(';');
    }
    body.append(code);
    *has_codes = true;
    assert(body@ =~= join_codes(codes + seq![code@]));
}

fn add_flag_code(
    body: &mut String,
    has_codes: &mut bool,
    on: bool,
    digit: char,
    Ghost(codes): Ghost<Seq<Seq<char>>>,
)
    requires
        old(body)@ == join_codes(codes),
        *old(has_codes) == (codes.len() > 0),
    ensures
        final(body)@ == join_codes(codes + flag_code(on, digit)),
        *final(has_codes) == ((codes + flag_code(on, digit)).len() > 0),
{
    if on {
        proof {
            lemma_join_push(codes, seq![digit]);
        }
        if *has_codes {
            body.push(';');
        }
        body.push(digit);
        *has_codes = true;
        assert(body@ =~= join_codes(codes + flag_code(on, digit)));
    } else {
        assert(codes + flag_code(on, digit) =~= codes);
    }
}

fn add_color_code(
    body: &mut String,
    has_codes: &mut bool,
    color: Option<Color>,
    layer: char,
    Ghost(codes): Ghost<Seq<Seq<char>>>,
)
    requires
        old(body)@ == join_codes(codes),
        *old(has_codes) == (codes.len() > 0),
        layer == '3' || layer == '4',
    ensures
        final(body)@ == join_codes(codes + color_code(color, layer)),
        *final(has_codes) == ((codes + color_code(color, layer)).len() > 0),
{
    match color {
        Some(color) => {
            let code = if layer == '3' {
                color.foreground_code()
            } else {
                color.background_code()
            };
            push_code_entry(body, has_codes, code.as_str(), Ghost(codes));
            assert(codes + seq![code@] =~= codes + color_code(Some(color), layer));
        },
        None => {
            assert(codes + color_code(color, layer) =~= codes);
        },
    }
}

impl Style {
    pub fn with_foreground(self, color: Color) -> (style: Self)
        ensures
            style == (Style { colors: ColorPair { foreground: Some(color), ..self.colors }, ..self }),
    {
        let mut style = self;
        style.colors.foreground = Some(color);
        style
    }

    pub fn with_background(self, color: Color) -> (style: Self)
        ensures
            style == (Style { colors: ColorPair { background: Some(color), ..self.colors }, ..self }),
    {
        let mut style = self;
        style.colors.background = Some(color);
        style
    }

    pub fn is_default(&self) -> (plain: bool)
        ensures
            plain == (*self == plain_style()),
    {
        *self == Style::default()
    }

    #[verifier::rlimit(80)]
    /// The attribute parameters joined by ';', and whether there are any.
    fn attribute_body(&self) -> (body: (String, bool))
        ensures
            body.0@ == join_codes(attribute_codes(*self)),
            body.1 == (attribute_codes(*self).len() > 0),
    {
        let mut body = String::new();
        let mut has_codes = false;
        let ghost mut codes: Seq<Seq<char>> = Seq::empty();
        assert(body@ =~= join_codes(codes));
        add_flag_code(&mut body, &mut has_codes, self.bold, '1', Ghost(codes));
        proof { codes = codes + flag_code(self.bold, '1'); }
        add_flag_code(&mut body, &mut has_codes, self.dim, '2', Ghost(codes));
        proof { codes = codes + flag_code(self.dim, '2'); }
        add_flag_code(&mut body, &mut has_codes, self.italic, '3', Ghost(codes));
        proof { codes = codes + flag_code(self.italic, '3'); }
        add_flag_code(&mut body, &mut has_codes, self.underline, '4', Ghost(codes));
        proof { codes = codes + flag_code(self.underline, '4'); }
        add_flag_code(&mut body, &mut has_codes, self.blink, '5', Ghost(codes));
        proof { codes = codes + flag_code(self.blink, '5'); }
        add_flag_code(&mut body, &mut has_codes, self.reverse, '7', Ghost(codes));
        proof { codes = codes + flag_code(self.reverse, '7'); }
        add_flag_code(&mut body, &mut has_codes, self.hidden, '8', Ghost(codes));
        proof { codes = codes + flag_code(self.hidden, '8'); }
        add_flag_code(&mut body, &mut has_codes, self.strike, '9', Ghost(codes));
        proof { codes = codes + flag_code(self.strike, '9'); }
        (body, has_codes)
    }

    /// The escape sequence that selects this style.
    pub fn ansi_prefix(&self) -> (prefix: String)
        ensures
            prefix@ == ansi_prefix_of(*self),
    {
        let (mut body, mut has_codes) = self.attribute_body();
        let ghost mut codes: Seq<Seq<char>> = attribute_codes(*self);
        add_color_code(&mut body, &mut has_codes, self.colors.foreground, '3', Ghost(codes));
        proof { codes = codes + color_code(self.colors.foreground, '3'); }
        add_color_code(&mut body, &mut has_codes, self.colors.background, '4', Ghost(codes));
        proof { codes = codes + color_code(self.colors.background, '4'); }
        assert(codes == style_codes(*self));
        if !has_codes {
            let empty = String::new();
            assert(empty@ =~= ansi_prefix_of(*self));
            empty
        } else {
            let mut prefix = String::new();
            prefix.push('\x1b');
            prefix.push('[');
            prefix.append(body.as_str());
            prefix.push('m');
            assert(prefix@ =~= ansi_prefix_of(*self));
            prefix
        }
    }
}

} // verus!
