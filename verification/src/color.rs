//! The colour model: eighteen program colours on a hue axis and a lightness
//! axis, black, white, and everything else; the commands that a colour change
//! stands for; and the fixed palette of 24-bit codes.

use vstd::prelude::*;

verus! {

/// One of the six hues, a cyclic group of order six.
#[derive(Clone, Copy, Debug, PartialEq, Eq, Structural)]
pub enum Hue {
    Red,
    Yellow,
    Green,
    Cyan,
    Blue,
    Magenta,
}

/// One of the three lightness levels, a cyclic group of order three.
#[derive(Clone, Copy, Debug, PartialEq, Eq, Structural)]
pub enum Lightness {
    Light,
    Normal,
    Dark,
}

/// The colour of a codel.
#[derive(Clone, Copy, Debug, PartialEq, Eq, Structural)]
pub enum Color {
    Color(Hue, Lightness),
    Black,
    White,
    Other,
}

/// What a step from one program colour to the next asks the machine to do.
#[derive(Clone, Copy, Debug, PartialEq, Eq, Structural)]
pub enum Command {
    Noop,
    Push,
    Pop,
    Add,
    Subtract,
    Multiply,
    Divide,
    Mod,
    Not,
    Greater,
    Pointer,
    Switch,
    Duplicate,
    Roll,
    InNum,
    InChar,
    OutNum,
    OutChar,
}

impl Hue {
    /// Position on the hue axis, from 0 to 5.
    pub open spec fn index(self) -> int {
        match self {
            Hue::Red => 0,
            Hue::Yellow => 1,
            Hue::Green => 2,
            Hue::Cyan => 3,
            Hue::Blue => 4,
            Hue::Magenta => 5,
        }
    }

    /// The hue at position `i` modulo six.
    pub open spec fn at(i: int) -> Hue {
        let k = i % 6;
        if k == 0 {
            Hue::Red
        } else if k == 1 {
            Hue::Yellow
        } else if k == 2 {
            Hue::Green
        } else if k == 3 {
            Hue::Cyan
        } else if k == 4 {
            Hue::Blue
        } else {
            Hue::Magenta
        }
    }

    pub fn to_index(self) -> (r: u8)
        ensures
            r == self.index(),
            r < 6,
    {
        match self {
            Hue::Red => 0,
            Hue::Yellow => 1,
            Hue::Green => 2,
            Hue::Cyan => 3,
            Hue::Blue => 4,
            Hue::Magenta => 5,
        }
    }

    pub fn from_index(i: u8) -> (r: Hue)
        ensures
            r == Hue::at(i as int),
    {
        let k: u8 = i % 6;
        if k == 0 {
            Hue::Red
        } else if k == 1 {
            Hue::Yellow
        } else if k == 2 {
            Hue::Green
        } else if k == 3 {
            Hue::Cyan
        } else if k == 4 {
            Hue::Blue
        } else {
            Hue::Magenta
        }
    }
}

impl Lightness {
    /// Position on the lightness axis, from 0 to 2.
    pub open spec fn index(self) -> int {
        match self {
            Lightness::Light => 0,
            Lightness::Normal => 1,
            Lightness::Dark => 2,
        }
    }

    /// The lightness at position `i` modulo three.
    pub open spec fn at(i: int) -> Lightness {
        let k = i % 3;
        if k == 0 {
            Lightness::Light
        } else if k == 1 {
            Lightness::Normal
        } else {
            Lightness::Dark
        }
    }

    pub fn to_index(self) -> (r: u8)
        ensures
            r == self.index(),
            r < 3,
    {
        match self {
            Lightness::Light => 0,
            Lightness::Normal => 1,
            Lightness::Dark => 2,
        }
    }

    pub fn from_index(i: u8) -> (r: Lightness)
        ensures
            r == Lightness::at(i as int),
    {
        let k: u8 = i % 3;
        if k == 0 {
            Lightness::Light
        } else if k == 1 {
            Lightness::Normal
        } else {
            Lightness::Dark
        }
    }
}

impl Command {
    /// The command's number: the lightness step plus three times the hue step.
    pub open spec fn index(self) -> int {
        match self {
            Command::Noop => 0,
            Command::Push => 1,
            Command::Pop => 2,
            Command::Add => 3,
            Command::Subtract => 4,
            Command::Multiply => 5,
            Command::Divide => 6,
            Command::Mod => 7,
            Command::Not => 8,
            Command::Greater => 9,
            Command::Pointer => 10,
            Command::Switch => 11,
            Command::Duplicate => 12,
            Command::Roll => 13,
            Command::InNum => 14,
            Command::InChar => 15,
            Command::OutNum => 16,
            Command::OutChar => 17,
        }
    }

    /// The command numbered `i`, for `i` from 0 to 17.
    pub open spec fn at(i: int) -> Command {
        if i == 0 {
            Command::Noop
        } else if i == 1 {
            Command::Push
        } else if i == 2 {
            Command::Pop
        } else if i == 3 {
            Command::Add
        } else if i == 4 {
            Command::Subtract
        } else if i == 5 {
            Command::Multiply
        } else if i == 6 {
            Command::Divide
        } else if i == 7 {
            Command::Mod
        } else if i == 8 {
            Command::Not
        } else if i == 9 {
            Command::Greater
        } else if i == 10 {
            Command::Pointer
        } else if i == 11 {
            Command::Switch
        } else if i == 12 {
            Command::Duplicate
        } else if i == 13 {
            Command::Roll
        } else if i == 14 {
            Command::InNum
        } else if i == 15 {
            Command::InChar
        } else if i == 16 {
            Command::OutNum
        } else {
            Command::OutChar
        }
    }

    pub fn to_index(self) -> (r: u8)
        ensures
            r == self.index(),
            r < 18,
    {
        match self {
            Command::Noop => 0,
            Command::Push => 1,
            Command::Pop => 2,
            Command::Add => 3,
            Command::Subtract => 4,
            Command::Multiply => 5,
            Command::Divide => 6,
            Command::Mod => 7,
            Command::Not => 8,
            Command::Greater => 9,
            Command::Pointer => 10,
            Command::Switch => 11,
            Command::Duplicate => 12,
            Command::Roll => 13,
            Command::InNum => 14,
            Command::InChar => 15,
            Command::OutNum => 16,
            Command::OutChar => 17,
        }
    }

    /// The command numbered `i`; `None` when `i` is 18 or more.
    pub fn from_index(i: u8) -> (r: Option<Command>)
        ensures
            i < 18 ==> r == Some(Command::at(i as int)),
            i >= 18 ==> r.is_none(),
    {
        match i {
            0 => Some(Command::Noop),
            1 => Some(Command::Push),
            2 => Some(Command::Pop),
            3 => Some(Command::Add),
            4 => Some(Command::Subtract),
            5 => Some(Command::Multiply),
            6 => Some(Command::Divide),
            7 => Some(Command::Mod),
            8 => Some(Command::Not),
            9 => Some(Command::Greater),
            10 => Some(Command::Pointer),
            11 => Some(Command::Switch),
            12 => Some(Command::Duplicate),
            13 => Some(Command::Roll),
            14 => Some(Command::InNum),
            15 => Some(Command::InChar),
            16 => Some(Command::OutNum),
            17 => Some(Command::OutChar),
            _ => None,
        }
    }
}

impl Color {
    /// Whether this is one of the eighteen program colours.
    pub open spec fn is_program(self) -> bool {
        self is Color
    }

    /// The command that a step from `self` to `next` stands for: `Noop` where
    /// either is white, else the lightness step plus three times the hue step.
    pub open spec fn step_spec(self, next: Color) -> Command {
        match (self, next) {
            (Color::Color(h, l), Color::Color(nh, nl)) => Command::at(
                (nl.index() - l.index()) % 3 + 3 * ((nh.index() - h.index()) % 6),
            ),
            _ => Command::Noop,
        }
    }

    /// The colour that follows `self` when `command` is to be run.
    pub open spec fn next_spec(self, command: Command) -> Color {
        match self {
            Color::Color(h, l) => Color::Color(
                Hue::at(h.index() + command.index() / 3),
                Lightness::at(l.index() + command.index() % 3),
            ),
            _ => self,
        }
    }

    pub fn is_program_color(self) -> (r: bool)
        ensures
            r == self.is_program(),
    {
        match self {
            Color::Color(_, _) => true,
            _ => false,
        }
    }

    /// The command for a step from `self` to `next`. Neither may be black or
    /// other; a step that touches white is a `Noop`.
    pub fn step_to(self, next: Color) -> (r: Command)
        requires
            self is Color || self is White,
            self is Color ==> next is Color || next is White,
        ensures
            r == self.step_spec(next),
    {
        match self {
            Color::Color(h, l) => match next {
                Color::Color(nh, nl) => {
                    let hue_step: u8 = (nh.to_index() + 6 - h.to_index()) % 6;
                    let light_step: u8 = (nl.to_index() + 3 - l.to_index()) % 3;
                    match Command::from_index(light_step + hue_step * 3) {
                        Some(c) => c,
                        None => Command::Noop,
                    }
                },
                _ => Command::Noop,
            },
            _ => Command::Noop,
        }
    }

    /// The inverse of `step_to`: the colour to paint after `self` so that the
    /// step runs `command`.
    pub fn next_for_command(self, command: Command) -> (r: Color)
        requires
            self is Color,
        ensures
            r == self.next_spec(command),
            r is Color,
    {
        match self {
            Color::Color(h, l) => {
                let c: u8 = command.to_index();
                let hue = Hue::from_index(h.to_index() + c / 3);
                let lightness = Lightness::from_index(l.to_index() + c % 3);
                Color::Color(hue, lightness)
            },
            _ => self,
        }
    }
}

/// The hue at a position has that position modulo six as its own.
pub proof fn lemma_hue_at(i: int)
    requires
        0 <= i,
    ensures
        Hue::at(i).index() == i % 6,
{
}

/// The lightness at a position has that position modulo three as its own.
pub proof fn lemma_lightness_at(i: int)
    requires
        0 <= i,
    ensures
        Lightness::at(i).index() == i % 3,
{
}

/// The command with the number of a command is that command.
pub proof fn lemma_command_at(command: Command)
    ensures
        0 <= command.index() < 18,
        Command::at(command.index()) == command,
{
}

/// Going `d` places round a circle of `m` places from the place `h`, and
/// taking `h` off again, leaves `d`.
pub proof fn lemma_round(h: int, d: int, m: int)
    requires
        0 <= h < m,
        0 <= d < m,
    ensures
        ((h + d) % m - h) % m == d,
{
    if h + d < m {
        vstd::arithmetic::div_mod::lemma_small_mod((h + d) as nat, m as nat);
        vstd::arithmetic::div_mod::lemma_small_mod(d as nat, m as nat);
    } else {
        vstd::arithmetic::div_mod::lemma_mod_add_multiples_vanish(h + d - m, m);
        vstd::arithmetic::div_mod::lemma_small_mod((h + d - m) as nat, m as nat);
        vstd::arithmetic::div_mod::lemma_mod_add_multiples_vanish(d - m, m);
        vstd::arithmetic::div_mod::lemma_small_mod(d as nat, m as nat);
    }
}

/// Stepping from a program colour to the colour chosen for a command gives
/// that command back.
pub proof fn lemma_step_round_trip(p: Color, command: Command)
    requires
        p is Color,
    ensures
        p.step_spec(p.next_spec(command)) == command,
{
    let h = p->Color_0.index();
    let l = p->Color_1.index();
    let c = command.index();
    lemma_command_at(command);
    lemma_hue_at(h + c / 3);
    lemma_lightness_at(l + c % 3);
    lemma_round(h, c / 3, 6);
    lemma_round(l, c % 3, 3);
}

impl Lightness {
    /// The byte of a channel that the hue peaks in.
    pub open spec fn high(self) -> u8 {
        match self {
            Lightness::Light => 0xFF,
            Lightness::Normal => 0xFF,
            Lightness::Dark => 0xC0,
        }
    }

    /// The byte of a channel that the hue does not peak in.
    pub open spec fn low(self) -> u8 {
        match self {
            Lightness::Light => 0xC0,
            Lightness::Normal => 0x00,
            Lightness::Dark => 0x00,
        }
    }
}

impl Hue {
    /// Which of the red, green and blue channels the hue peaks in.
    pub open spec fn peaks(self) -> (bool, bool, bool) {
        match self {
            Hue::Red => (true, false, false),
            Hue::Yellow => (true, true, false),
            Hue::Green => (false, true, false),
            Hue::Cyan => (false, true, true),
            Hue::Blue => (false, false, true),
            Hue::Magenta => (true, false, true),
        }
    }
}

impl Color {
    /// The palette code of a colour; `Other` has none.
    pub open spec fn rgb_spec(self) -> Option<(u8, u8, u8)> {
        match self {
            Color::White => Some((0xFFu8, 0xFFu8, 0xFFu8)),
            Color::Black => Some((0x00u8, 0x00u8, 0x00u8)),
            Color::Color(h, l) => Some(
                (
                    if h.peaks().0 { l.high() } else { l.low() },
                    if h.peaks().1 { l.high() } else { l.low() },
                    if h.peaks().2 { l.high() } else { l.low() },
                ),
            ),
            Color::Other => None,
        }
    }

    /// The palette code of a colour, or `None` for `Other`.
    pub fn to_rgb(self) -> (r: Option<(u8, u8, u8)>)
        ensures
            r == self.rgb_spec(),
    {
        match self {
            Color::White => Some((0xFF, 0xFF, 0xFF)),
            Color::Black => Some((0x00, 0x00, 0x00)),
            Color::Color(Hue::Red, Lightness::Light) => Some((0xFF, 0xC0, 0xC0)),
            Color::Color(Hue::Red, Lightness::Normal) => Some((0xFF, 0x00, 0x00)),
            Color::Color(Hue::Red, Lightness::Dark) => Some((0xC0, 0x00, 0x00)),
            Color::Color(Hue::Yellow, Lightness::Light) => Some((0xFF, 0xFF, 0xC0)),
            Color::Color(Hue::Yellow, Lightness::Normal) => Some((0xFF, 0xFF, 0x00)),
            Color::Color(Hue::Yellow, Lightness::Dark) => Some((0xC0, 0xC0, 0x00)),
            Color::Color(Hue::Green, Lightness::Light) => Some((0xC0, 0xFF, 0xC0)),
            Color::Color(Hue::Green, Lightness::Normal) => Some((0x00, 0xFF, 0x00)),
            Color::Color(Hue::Green, Lightness::Dark) => Some((0x00, 0xC0, 0x00)),
            Color::Color(Hue::Cyan, Lightness::Light) => Some((0xC0, 0xFF, 0xFF)),
            Color::Color(Hue::Cyan, Lightness::Normal) => Some((0x00, 0xFF, 0xFF)),
            Color::Color(Hue::Cyan, Lightness::Dark) => Some((0x00, 0xC0, 0xC0)),
            Color::Color(Hue::Blue, Lightness::Light) => Some((0xC0, 0xC0, 0xFF)),
            Color::Color(Hue::Blue, Lightness::Normal) => Some((0x00, 0x00, 0xFF)),
            Color::Color(Hue::Blue, Lightness::Dark) => Some((0x00, 0x00, 0xC0)),
            Color::Color(Hue::Magenta, Lightness::Light) => Some((0xFF, 0xC0, 0xFF)),
            Color::Color(Hue::Magenta, Lightness::Normal) => Some((0xFF, 0x00, 0xFF)),
            Color::Color(Hue::Magenta, Lightness::Dark) => Some((0xC0, 0x00, 0xC0)),
            Color::Other => None,
        }
    }

    /// The colour with the palette code `(r, g, b)`, or `Other` when no colour
    /// has that code.
    pub fn from_rgb(r: u8, g: u8, b: u8) -> (c: Color)
        ensures
            c == color_of((r, g, b)),
            !(c is Other) ==> c.rgb_spec() == Some((r, g, b)),
            c is Other ==> forall|d: Color| d.rgb_spec() != Some((r, g, b)),
    {
        proof {
            lemma_color_of((r, g, b));
        }
        let c = match (r, g, b) {
            (0xFF, 0xFF, 0xFF) => Color::White,
            (0x00, 0x00, 0x00) => Color::Black,
            (0xFF, 0xC0, 0xC0) => Color::Color(Hue::Red, Lightness::Light),
            (0xFF, 0x00, 0x00) => Color::Color(Hue::Red, Lightness::Normal),
            (0xC0, 0x00, 0x00) => Color::Color(Hue::Red, Lightness::Dark),
            (0xFF, 0xFF, 0xC0) => Color::Color(Hue::Yellow, Lightness::Light),
            (0xFF, 0xFF, 0x00) => Color::Color(Hue::Yellow, Lightness::Normal),
            (0xC0, 0xC0, 0x00) => Color::Color(Hue::Yellow, Lightness::Dark),
            (0xC0, 0xFF, 0xC0) => Color::Color(Hue::Green, Lightness::Light),
            (0x00, 0xFF, 0x00) => Color::Color(Hue::Green, Lightness::Normal),
            (0x00, 0xC0, 0x00) => Color::Color(Hue::Green, Lightness::Dark),
            (0xC0, 0xFF, 0xFF) => Color::Color(Hue::Cyan, Lightness::Light),
            (0x00, 0xFF, 0xFF) => Color::Color(Hue::Cyan, Lightness::Normal),
            (0x00, 0xC0, 0xC0) => Color::Color(Hue::Cyan, Lightness::Dark),
            (0xC0, 0xC0, 0xFF) => Color::Color(Hue::Blue, Lightness::Light),
            (0x00, 0x00, 0xFF) => Color::Color(Hue::Blue, Lightness::Normal),
            (0x00, 0x00, 0xC0) => Color::Color(Hue::Blue, Lightness::Dark),
            (0xFF, 0xC0, 0xFF) => Color::Color(Hue::Magenta, Lightness::Light),
            (0xFF, 0x00, 0xFF) => Color::Color(Hue::Magenta, Lightness::Normal),
            (0xC0, 0x00, 0xC0) => Color::Color(Hue::Magenta, Lightness::Dark),
            _ => Color::Other,
        };
        c
    }

    /// The colour of a pixel with an alpha channel: `Other` unless the pixel
    /// is fully opaque, else the colour of its three colour channels.
    pub fn from_rgba(r: u8, g: u8, b: u8, a: u8) -> (c: Color)
        ensures
            c == if a == 0xFF {
                color_of((r, g, b))
            } else {
                Color::Other
            },
    {
        if a != 0xFF {
            return Color::Other;
        }
        Color::from_rgb(r, g, b)
    }
}

/// The colour with the palette code `rgb`; `Other` when no colour has it.
pub open spec fn color_of(rgb: (u8, u8, u8)) -> Color {
    if exists|c: Color| c.rgb_spec() == Some(rgb) {
        choose|c: Color| c.rgb_spec() == Some(rgb)
    } else {
        Color::Other
    }
}

/// The colour of a palette code has that code, and is the only colour that
/// has it; the colour of any other code is `Other`.
pub proof fn lemma_color_of(rgb: (u8, u8, u8))
    ensures
        !(color_of(rgb) is Other) ==> color_of(rgb).rgb_spec() == Some(rgb),
        color_of(rgb) is Other ==> forall|d: Color| d.rgb_spec() != Some(rgb),
        forall|c: Color| c.rgb_spec() == Some(rgb) ==> color_of(rgb) == c,
{
    if exists|c: Color| c.rgb_spec() == Some(rgb) {
        let d = choose|c: Color| c.rgb_spec() == Some(rgb);
        assert forall|c: Color| c.rgb_spec() == Some(rgb) implies color_of(rgb) == c by {
            lemma_palette_injective(c, d);
        }
    }
}

/// From a colour to its palette code and back gives the colour.
pub proof fn lemma_palette_round_trip(c: Color)
    requires
        !(c is Other),
    ensures
        c.rgb_spec().is_some(),
        color_of(c.rgb_spec().unwrap()) == c,
{
    lemma_color_of(c.rgb_spec().unwrap());
}

/// No two colours share a palette code.
pub proof fn lemma_palette_injective(c: Color, d: Color)
    requires
        c.rgb_spec().is_some(),
        c.rgb_spec() == d.rgb_spec(),
    ensures
        c == d,
{
}

} // verus!
