//! Palette management: the colors available to a puzzle, as hexadecimal
//! strings, and the currently selected brush color.

use crate::definitions::NonogramPalette;
use vstd::prelude::*;
use vstd::string::StrSliceExecFns;
use vstd::string::StringExecFns;

verus! {

/// The decimal digit character for a value below ten.
pub open spec fn dec_digit(d: int) -> char {
    ((48 + d) as u8) as char
}

/// The decimal digits of a nonnegative number, most significant first.
pub open spec fn dec_str(n: int) -> Seq<char>
    decreases n,
{
    if n < 10 {
        seq![dec_digit(n)]
    } else {
        dec_str(n / 10).push(dec_digit(n % 10))
    }
}

/// Whether a character is a hexadecimal digit, either case.
pub open spec fn is_hex_digit(c: char) -> bool {
    (48 <= c as int <= 57) || (97 <= c as int <= 102) || (65 <= c as int <= 70)
}

/// The value of a hexadecimal digit.
pub open spec fn hex_val(c: char) -> int {
    if 48 <= c as int <= 57 {
        c as int - 48
    } else if 97 <= c as int <= 102 {
        c as int - 87
    } else {
        c as int - 55
    }
}

/// A well-formed hexadecimal color: `#` followed by six hex digits.
pub open spec fn valid_hex_color(s: Seq<char>) -> bool {
    &&& s.len() == 7
    &&& s[0] == '#'
    &&& forall|i: int| 1 <= i < 7 ==> is_hex_digit(#[trigger] s[i])
}

/// The channel value written at positions `i`, `i + 1` of a color string.
pub open spec fn hex_pair(s: Seq<char>, i: int) -> int {
    16 * hex_val(s[i]) + hex_val(s[i + 1])
}

/// Whether a color is on the dark side: its rec. 709 luminance, scaled by
/// 2550000 to stay in integers, is at most one half.
pub open spec fn is_dark(r: int, g: int, b: int) -> bool {
    2126 * r + 7152 * g + 722 * b <= 1275000
}

/// Relies on std's `Display` formatting for `usize`: the number is
/// rendered as its decimal digits, most significant first.
#[verifier::external_body]
fn decimal_string(n: usize) -> (r: String)
    ensures
        r@ == dec_str(n as int),
{
    format!("{}", n)
}

/// The value of one hexadecimal digit character, either case; `None` for
/// any other character.
fn hex_digit_value(c: char) -> (r: Option<u8>)
    ensures
        r is Some <==> is_hex_digit(c),
        r matches Some(v) ==> v == hex_val(c) && v <= 15,
{
    let x = c as u32;
    if 48 <= x && x <= 57 {
        Some((x - 48) as u8)
    } else if 97 <= x && x <= 102 {
        Some((x - 87) as u8)
    } else if 65 <= x && x <= 70 {
        Some((x - 55) as u8)
    } else {
        None
    }
}

/// The text color that stays readable on the given background: white on a
/// dark color, black on a light one, nothing for an unparsable color.
pub open spec fn text_color_spec(s: Seq<char>) -> Seq<char> {
    if valid_hex_color(s) {
        if is_dark(hex_pair(s, 1), hex_pair(s, 3), hex_pair(s, 5)) {
            "#ffffff"@
        } else {
            "#000000"@
        }
    } else {
        Seq::empty()
    }
}

/// The border color for the given background: white on a dark color, a
/// neutral gray on a light or unparsable one.
pub open spec fn border_color_spec(s: Seq<char>) -> Seq<char> {
    if valid_hex_color(s) && is_dark(hex_pair(s, 1), hex_pair(s, 3), hex_pair(s, 5)) {
        "#ffffff"@
    } else {
        "#9ca3af"@
    }
}

impl NonogramPalette {
    /// The number of colors in the palette.
    pub fn len(&self) -> (r: usize)
        ensures
            r == self.color_palette@.len(),
    {
        self.color_palette.len()
    }

    /// The color at the given index.
    pub fn get(&self, index: usize) -> (r: &str)
        requires
            index < self.color_palette@.len(),
        ensures
            r@ == self.color_palette@[index as int]@,
    {
        self.color_palette[index].as_str()
    }

    /// Replaces the brush's color with the given one.
    pub fn set_current(&mut self, color: String)
        requires
            old(self).brush < old(self).color_palette@.len(),
        ensures
            final(self).color_palette@ == old(self).color_palette@.update(
                old(self).brush as int,
                color,
            ),
            final(self).brush == old(self).brush,
    {
        self.color_palette[self.brush] = color;
    }

    /// The brush's current color.
    pub fn get_current(&self) -> (r: &str)
        requires
            self.brush < self.color_palette@.len(),
        ensures
            r@ == self.color_palette@[self.brush as int]@,
    {
        self.color_palette[self.brush].as_str()
    }

    /// Appends a new color to the palette.
    pub fn add_color(&mut self, color: String)
        ensures
            final(self).color_palette@ == old(self).color_palette@.push(color),
            final(self).brush == old(self).brush,
    {
        self.color_palette.push(color);
    }

    /// Removes the color at the given index; the brush index steps back
    /// by one whenever it is not already at the start.
    pub fn remove_color(&mut self, index: usize)
        requires
            index < old(self).color_palette@.len(),
        ensures
            final(self).color_palette@ == old(self).color_palette@.remove(index as int),
            final(self).brush == if old(self).brush > 0 {
                (old(self).brush - 1) as usize
            } else {
                0usize
            },
    {
        self.color_palette.remove(index);
        if self.brush > 0 {
            self.brush -= 1;
        }
    }

    /// Selects the brush color; an out-of-range index is ignored.
    pub fn set_brush(&mut self, index: usize)
        ensures
            final(self).color_palette@ == old(self).color_palette@,
            final(self).brush == if index < old(self).color_palette@.len() {
                index
            } else {
                old(self).brush
            },
    {
        if index < self.color_palette.len() {
            self.brush = index;
        }
    }

    /// The brush shown as `index -> color`.
    pub fn show_brush(&self) -> (r: String)
        requires
            self.brush < self.color_palette@.len(),
        ensures
            r@ == dec_str(self.brush as int) + " -> "@ + self.color_palette@[self.brush as int]@,
    {
        let mut s = decimal_string(self.brush);
        s.append(" -> ");
        s.append(self.get_current());
        s
    }

    /// Parses a `#RRGGBB` color into its three channel values; `None` for
    /// any string not of that shape.
    fn parse_color(color: &str) -> (r: Option<(u8, u8, u8)>)
        ensures
            r is Some <==> valid_hex_color(color@),
            r matches Some(t) ==> t.0 == hex_pair(color@, 1) && t.1 == hex_pair(color@, 3) && t.2
                == hex_pair(color@, 5),
    {
        if color.unicode_len() != 7 {
            return None;
        }
        if color.get_char(0) != '#' {
            return None;
        }
        let d1 = hex_digit_value(color.get_char(1));
        let d2 = hex_digit_value(color.get_char(2));
        let d3 = hex_digit_value(color.get_char(3));
        let d4 = hex_digit_value(color.get_char(4));
        let d5 = hex_digit_value(color.get_char(5));
        let d6 = hex_digit_value(color.get_char(6));
        if d1.is_none() || d2.is_none() || d3.is_none() || d4.is_none() || d5.is_none()
            || d6.is_none() {
            return None;
        }
        let red = 16 * (d1.unwrap() as u32) + (d2.unwrap() as u32);
        let green = 16 * (d3.unwrap() as u32) + (d4.unwrap() as u32);
        let blue = 16 * (d5.unwrap() as u32) + (d6.unwrap() as u32);
        Some((red as u8, green as u8, blue as u8))
    }

    /// Whether the color is on the dark side of the luminance scale.
    fn is_darker(r: u8, g: u8, b: u8) -> (dark: bool)
        ensures
            dark == is_dark(r as int, g as int, b as int),
    {
        let luminance: u32 = 2126 * (r as u32) + 7152 * (g as u32) + 722 * (b as u32);
        luminance <= 1275000
    }

    /// The readable text color for the background at the given index.
    pub fn text_color(&self, background: usize) -> (r: String)
        requires
            background < self.color_palette@.len(),
        ensures
            r@ == text_color_spec(self.color_palette@[background as int]@),
    {
        let background = self.get(background);
        if let Some((r, g, b)) = Self::parse_color(background) {
            if Self::is_darker(r, g, b) {
                String::from_str("#ffffff")
            } else {
                String::from_str("#000000")
            }
        } else {
            String::new()
        }
    }

    /// The border color for the background at the given index.
    pub fn border_color(&self, background: usize) -> (r: String)
        requires
            background < self.color_palette@.len(),
        ensures
            r@ == border_color_spec(self.color_palette@[background as int]@),
    {
        let background = self.get(background);
        if let Some((r, g, b)) = Self::parse_color(background) {
            if Self::is_darker(r, g, b) {
                String::from_str("#ffffff")
            } else {
                String::from_str("#9ca3af")
            }
        } else {
            String::from_str("#9ca3af")
        }
    }
}

} // verus!
