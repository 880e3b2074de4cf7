//! The RGB pixel: three 8-bit samples.

use vstd::prelude::*;
use vstd::string::StringExecFns;

verus! {

/// An RGB colour of three 8-bit samples.
#[derive(Debug, Clone, Copy, PartialEq, Eq, Structural)]
pub struct Pixel {
    pub r: u8,
    pub g: u8,
    pub b: u8,
}

/// The negative of one sample.
pub open spec fn invert_sample(c: u8) -> u8 {
    (255 - c) as u8
}

/// The grey level of three samples: each divided by three, rounding down,
/// and the three quotients added.
pub open spec fn gray_level(r: u8, g: u8, b: u8) -> u8 {
    (r / 3 + g / 3 + b / 3) as u8
}

/// The upper-case hexadecimal digit for a number below sixteen.
pub open spec fn hex_digit(d: u8) -> char {
    if d == 0 {
        '0'
    } else if d == 1 {
        '1'
    } else if d == 2 {
        '2'
    } else if d == 3 {
        '3'
    } else if d == 4 {
        '4'
    } else if d == 5 {
        '5'
    } else if d == 6 {
        '6'
    } else if d == 7 {
        '7'
    } else if d == 8 {
        '8'
    } else if d == 9 {
        '9'
    } else if d == 10 {
        'A'
    } else if d == 11 {
        'B'
    } else if d == 12 {
        'C'
    } else if d == 13 {
        'D'
    } else if d == 14 {
        'E'
    } else {
        'F'
    }
}

/// A sample in upper-case hexadecimal, without a leading zero: one digit
/// below sixteen, two from there on.
pub open spec fn hex_text(c: u8) -> Seq<char> {
    if c < 16 {
        seq![hex_digit(c)]
    } else {
        seq![hex_digit(c / 16), hex_digit(c % 16)]
    }
}

/// The colour tag of a pixel: `#`, then the three samples in hexadecimal.
pub open spec fn display_text(p: Pixel) -> Seq<char> {
    seq!['#'] + hex_text(p.r) + hex_text(p.g) + hex_text(p.b)
}

/// The hexadecimal digit for a number below sixteen, as a string.
fn hex_digit_str(d: u8) -> (s: &'static str)
    requires
        d < 16,
    ensures
        s@ == seq![hex_digit(d)],
{
    proof {
        reveal_strlit("0");
        reveal_strlit("1");
        reveal_strlit("2");
        reveal_strlit("3");
        reveal_strlit("4");
        reveal_strlit("5");
        reveal_strlit("6");
        reveal_strlit("7");
        reveal_strlit("8");
        reveal_strlit("9");
        reveal_strlit("A");
        reveal_strlit("B");
        reveal_strlit("C");
        reveal_strlit("D");
        reveal_strlit("E");
        reveal_strlit("F");
    }
    let s = match d {
        0 => "0",
        1 => "1",
        2 => "2",
        3 => "3",
        4 => "4",
        5 => "5",
        6 => "6",
        7 => "7",
        8 => "8",
        9 => "9",
        10 => "A",
        11 => "B",
        12 => "C",
        13 => "D",
        14 => "E",
        _ => "F",
    };
    assert(s@ =~= seq![hex_digit(d)]);
    s
}

/// Appends a sample in hexadecimal.
fn push_hex(s: &mut String, c: u8)
    ensures
        final(s)@ == old(s)@ + hex_text(c),
{
    if c >= 16 {
        s.append(hex_digit_str(c / 16));
    }
    s.append(hex_digit_str(c % 16));
    assert(s@ =~= old(s)@ + hex_text(c));
}

impl Pixel {
    /// The negative of this colour, as a mathematical value.
    pub open spec fn inverted(self) -> Pixel {
        Pixel { r: invert_sample(self.r), g: invert_sample(self.g), b: invert_sample(self.b) }
    }

    /// The grey colour that stands for this colour, as a mathematical value.
    pub open spec fn grayed(self) -> Pixel {
        let level = gray_level(self.r, self.g, self.b);
        Pixel { r: level, g: level, b: level }
    }

    /// Builds a pixel from its three samples.
    pub fn new(red: u8, green: u8, blue: u8) -> (p: Pixel)
        ensures
            p == (Pixel { r: red, g: green, b: blue }),
    {
        Pixel { r: red, g: green, b: blue }
    }

    /// The red sample.
    pub fn red(self) -> (c: u8)
        ensures
            c == self.r,
    {
        self.r
    }

    /// The green sample.
    pub fn green(self) -> (c: u8)
        ensures
            c == self.g,
    {
        self.g
    }

    /// The blue sample.
    pub fn blue(self) -> (c: u8)
        ensures
            c == self.b,
    {
        self.b
    }

    /// Replaces every sample `c` by `255 - c`.
    pub fn invert(&self) -> (p: Pixel)
        ensures
            p == self.inverted(),
            p.r == 255 - self.r,
            p.g == 255 - self.g,
            p.b == 255 - self.b,
    {
        Pixel { r: 255 - self.r, g: 255 - self.g, b: 255 - self.b }
    }

    /// Whether the two pixels have the same three samples.
    pub fn eq(&self, other: &Self) -> (same: bool)
        ensures
            same == (*self == *other),
            same == (self.r == other.r && self.g == other.g && self.b == other.b),
    {
        self.r == other.r && self.b == other.b && self.g == other.g
    }

    /// The colour as a tag: `#`, then the red, green and blue sample, each in
    /// upper-case hexadecimal without a leading zero.
    pub fn display(&self) -> (s: String)
        ensures
            s@ == display_text(*self),
    {
        proof {
            reveal_strlit("#");
        }
        let mut s = String::from_str("#");
        assert(s@ =~= seq!['#']);
        push_hex(&mut s, self.r);
        push_hex(&mut s, self.g);
        push_hex(&mut s, self.b);
        s
    }

    /// Turns the colour into a grey of level `r/3 + g/3 + b/3`, each division
    /// rounding down before the sum is taken.
    pub fn gray_scale(&self) -> (p: Pixel)
        ensures
            p == self.grayed(),
            p.r == self.r / 3 + self.g / 3 + self.b / 3,
            p.g == p.r,
            p.b == p.r,
    {
        let gray: u8 = self.r / 3 + self.g / 3 + self.b / 3;
        Pixel { r: gray, g: gray, b: gray }
    }
}

/// Inverting twice gives the pixel back.
pub proof fn lemma_pixel_invert_twice(p: Pixel)
    ensures
        p.inverted().inverted() == p,
{
}

/// No pixel is its own negative: `255 - c` and `c` differ in parity.
pub proof fn lemma_pixel_invert_differs(p: Pixel)
    ensures
        p.inverted() != p,
{
    assert(255 - p.r != p.r);
}

/// Converting a pixel to grey a second time rounds its level down to a
/// multiple of three, so the second conversion changes nothing exactly where
/// three divides the level.
pub proof fn lemma_pixel_gray_of_gray(p: Pixel)
    ensures
        p.grayed().grayed().r == 3 * (p.grayed().r / 3),
        p.grayed().grayed() == p.grayed() <==> p.grayed().r % 3 == 0,
{
}

} // verus!
