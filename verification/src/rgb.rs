//! Colours as three bytes, their hex form, and the texts that a picker copies.

use vstd::prelude::*;
use crate::hex::{hex_byte_upper, hex_pair_value, parse_hex_pair, upper_hex_digit};
use crate::text::{chars_of, string_of};

verus! {

/// A colour as red, green and blue.
#[derive(Debug, Clone, Copy, PartialEq, Eq, Structural)]
pub struct Rgb {
    pub r: u8,
    pub g: u8,
    pub b: u8,
}

/// The colour that `#` and three byte pairs spell.
pub open spec fn rgb_of_hex(s: Seq<char>) -> Option<Rgb> {
    if s.len() != 7 || s[0] != '#' {
        None
    } else {
        match (
            hex_pair_value(s[1], s[2]),
            hex_pair_value(s[3], s[4]),
            hex_pair_value(s[5], s[6]),
        ) {
            (Some(r), Some(g), Some(b)) => Some(Rgb { r, g, b }),
            _ => None,
        }
    }
}

/// `#RRGGBB` in uppercase.
pub open spec fn hex_of_rgb(rgb: Rgb) -> Seq<char> {
    seq!['#'] + hex_byte_upper(rgb.r) + hex_byte_upper(rgb.g) + hex_byte_upper(rgb.b)
}

/// The squared Euclidean distance of two colours.
pub open spec fn distance_squared(a: Rgb, b: Rgb) -> int {
    (a.r - b.r) * (a.r - b.r) + (a.g - b.g) * (a.g - b.g) + (a.b - b.b) * (a.b - b.b)
}

/// Reads a colour from characters that spell `#RRGGBB`.
pub fn rgb_from_chars(cs: &[char]) -> (r: Option<Rgb>)
    ensures
        r == rgb_of_hex(cs@),
{
    if cs.len() != 7 || cs[0] != '#' {
        return None;
    }
    let r = match parse_hex_pair(cs[1], cs[2]) {
        Some(v) => v,
        None => {
            return None;
        },
    };
    let g = match parse_hex_pair(cs[3], cs[4]) {
        Some(v) => v,
        None => {
            return None;
        },
    };
    let b = match parse_hex_pair(cs[5], cs[6]) {
        Some(v) => v,
        None => {
            return None;
        },
    };
    Some(Rgb { r, g, b })
}

/// Reads `#RRGGBB` as a colour; `None` for any other text.
pub fn hex_to_rgb(norm: &str) -> (r: Option<Rgb>)
    ensures
        r == rgb_of_hex(norm@),
{
    let cs = chars_of(norm);
    rgb_from_chars(cs.as_slice())
}

fn push_hex_byte(out: &mut Vec<char>, b: u8)
    ensures
        final(out)@ == old(out)@ + hex_byte_upper(b),
{
    out.push(upper_hex_digit(b / 16));
    out.push(upper_hex_digit(b % 16));
    proof {
        assert(out@ =~= old(out)@ + hex_byte_upper(b));
    }
}

/// Writes a colour as uppercase `#RRGGBB`.
pub fn rgb_to_hex(rgb: Rgb) -> (r: String)
    ensures
        r@ == hex_of_rgb(rgb),
{
    let mut out: Vec<char> = Vec::new();
    out.push('#');
    proof {
        assert(out@ =~= seq!['#']);
    }
    push_hex_byte(&mut out, rgb.r);
    push_hex_byte(&mut out, rgb.g);
    push_hex_byte(&mut out, rgb.b);
    string_of(out.as_slice())
}

/// The squared distance of two colours in RGB space.
pub fn dist2(a: Rgb, b: Rgb) -> (d: u32)
    ensures
        d as int == distance_squared(a, b),
        d <= 3 * 255 * 255,
{
    let dr: i32 = a.r as i32 - b.r as i32;
    let dg: i32 = a.g as i32 - b.g as i32;
    let db: i32 = a.b as i32 - b.b as i32;
    assert(-255 <= dr <= 255 && -255 <= dg <= 255 && -255 <= db <= 255);
    assert(0 <= dr * dr <= 255 * 255) by (nonlinear_arith)
        requires
            -255 <= dr <= 255,
    ;
    assert(0 <= dg * dg <= 255 * 255) by (nonlinear_arith)
        requires
            -255 <= dg <= 255,
    ;
    assert(0 <= db * db <= 255 * 255) by (nonlinear_arith)
        requires
            -255 <= db <= 255,
    ;
    (dr * dr + dg * dg + db * db) as u32
}

/// The distance is zero between a colour and itself, and the same in both
/// directions.
pub proof fn lemma_distance_symmetric(a: Rgb, b: Rgb)
    ensures
        distance_squared(a, a) == 0,
        distance_squared(a, b) == distance_squared(b, a),
        distance_squared(a, b) >= 0,
{
    assert((a.r - b.r) * (a.r - b.r) == (b.r - a.r) * (b.r - a.r)) by (nonlinear_arith);
    assert((a.g - b.g) * (a.g - b.g) == (b.g - a.g) * (b.g - a.g)) by (nonlinear_arith);
    assert((a.b - b.b) * (a.b - b.b) == (b.b - a.b) * (b.b - a.b)) by (nonlinear_arith);
    assert((a.r - b.r) * (a.r - b.r) >= 0) by (nonlinear_arith);
    assert((a.g - b.g) * (a.g - b.g) >= 0) by (nonlinear_arith);
    assert((a.b - b.b) * (a.b - b.b) >= 0) by (nonlinear_arith);
}

/// The decimal digits of a number.
pub open spec fn decimal_text(n: nat) -> Seq<char>
    decreases n,
{
    if n < 10 {
        seq![('0' as u8 + n) as char]
    } else {
        decimal_text(n / 10).push(('0' as u8 + n % 10) as char)
    }
}

/// Writes a number in decimal.
pub fn decimal(n: u16) -> (r: Vec<char>)
    ensures
        r@ == decimal_text(n as nat),
    decreases n,
{
    if n < 10 {
        let mut v: Vec<char> = Vec::new();
        v.push((('0' as u8) + (n as u8)) as char);
        proof {
            assert(v@ =~= decimal_text(n as nat));
        }
        v
    } else {
        let mut v = decimal(n / 10);
        v.push((('0' as u8) + ((n % 10) as u8)) as char);
        v
    }
}

/// The texts that a click on the centre of the wheel cycles through.
#[derive(Debug, Clone, Copy, PartialEq, Eq, Structural)]
pub enum CopyFormat {
    /// `#FF5733`
    Hex,
    /// `rgb(255, 87, 51)`
    Rgb,
    /// `hsl(14, 100%, 60%)`
    Hsl,
    /// `255, 87, 51`
    RgbValues,
}

impl Default for CopyFormat {
    fn default() -> (r: CopyFormat)
        ensures
            r == CopyFormat::Hex,
    {
        CopyFormat::Hex
    }
}

impl CopyFormat {
    /// The format that follows this one in the cycle.
    pub open spec fn successor(self) -> CopyFormat {
        match self {
            CopyFormat::Hex => CopyFormat::Rgb,
            CopyFormat::Rgb => CopyFormat::Hsl,
            CopyFormat::Hsl => CopyFormat::RgbValues,
            CopyFormat::RgbValues => CopyFormat::Hex,
        }
    }

    /// The name under which the format is shown.
    pub open spec fn label(self) -> Seq<char> {
        match self {
            CopyFormat::Hex => "HEX"@,
            CopyFormat::Rgb => "RGB"@,
            CopyFormat::Hsl => "HSL"@,
            CopyFormat::RgbValues => "RGB Values"@,
        }
    }

    /// The format that follows this one in the cycle.
    pub fn next(self) -> (r: CopyFormat)
        ensures
            r == self.successor(),
    {
        match self {
            CopyFormat::Hex => CopyFormat::Rgb,
            CopyFormat::Rgb => CopyFormat::Hsl,
            CopyFormat::Hsl => CopyFormat::RgbValues,
            CopyFormat::RgbValues => CopyFormat::Hex,
        }
    }

    /// The name under which the format is shown.
    pub fn display_name(self) -> (r: &'static str)
        ensures
            r@ == self.label(),
    {
        match self {
            CopyFormat::Hex => "HEX",
            CopyFormat::Rgb => "RGB",
            CopyFormat::Hsl => "HSL",
            CopyFormat::RgbValues => "RGB Values",
        }
    }
}

/// Four clicks bring the first format back.
pub proof fn lemma_copy_format_cycle(f: CopyFormat)
    ensures
        f.successor().successor().successor().successor() == f,
        f.successor() != f,
{
}

/// Hue in whole degrees, saturation and lightness in whole percent.
#[derive(Debug, Clone, Copy, PartialEq, Eq, Structural)]
pub struct HslRounded {
    pub h: u16,
    pub s: u8,
    pub l: u8,
}

/// The three numbers separated by a comma and a space.
pub open spec fn comma_separated(a: nat, b: nat, c: nat) -> Seq<char> {
    decimal_text(a) + seq![',', ' '] + decimal_text(b) + seq![',', ' '] + decimal_text(c)
}

/// `hsl(H, S%, L%)`.
pub open spec fn hsl_text(hsl: HslRounded) -> Seq<char> {
    seq!['h', 's', 'l', '('] + decimal_text(hsl.h as nat) + seq![',', ' '] + decimal_text(
        hsl.s as nat,
    ) + seq!['%', ',', ' '] + decimal_text(hsl.l as nat) + seq!['%', ')']
}

/// The text of a colour in a copy format.
pub open spec fn formatted(rgb: Rgb, format: CopyFormat, hsl: HslRounded) -> Seq<char> {
    match format {
        CopyFormat::Hex => hex_of_rgb(rgb),
        CopyFormat::Rgb => seq!['r', 'g', 'b', '('] + comma_separated(
            rgb.r as nat,
            rgb.g as nat,
            rgb.b as nat,
        ) + seq![')'],
        CopyFormat::Hsl => hsl_text(hsl),
        CopyFormat::RgbValues => comma_separated(rgb.r as nat, rgb.g as nat, rgb.b as nat),
    }
}

fn append(out: &mut Vec<char>, part: &Vec<char>)
    ensures
        final(out)@ == old(out)@ + part@,
{
    let mut i: usize = 0;
    while i < part.len()
        invariant
            i <= part.len(),
            out@ == old(out)@ + part@.take(i as int),
        decreases part.len() - i,
    {
        out.push(part[i]);
        proof {
            assert(part@.take(i + 1) =~= part@.take(i as int).push(part@[i as int]));
            assert(out@ =~= old(out)@ + part@.take(i + 1));
        }
        i += 1;
    }
    proof {
        assert(part@.take(part.len() as int) =~= part@);
    }
}

fn push_comma_separated(out: &mut Vec<char>, a: u8, b: u8, c: u8)
    ensures
        final(out)@ == old(out)@ + comma_separated(a as nat, b as nat, c as nat),
{
    let da = decimal(a as u16);
    let db = decimal(b as u16);
    let dc = decimal(c as u16);
    append(out, &da);
    out.push(',');
    out.push(' ');
    append(out, &db);
    out.push(',');
    out.push(' ');
    append(out, &dc);
    proof {
        assert(out@ =~= old(out)@ + comma_separated(a as nat, b as nat, c as nat));
    }
}

/// Writes a colour in the given copy format. The hue, saturation and
/// lightness are the caller's: they are written as given where the format
/// is `Hsl` and not read otherwise.
pub fn format_rgb(rgb: Rgb, format: CopyFormat, hsl: HslRounded) -> (r: String)
    ensures
        r@ == formatted(rgb, format, hsl),
{
    match format {
        CopyFormat::Hex => rgb_to_hex(rgb),
        CopyFormat::Rgb => {
            let mut out: Vec<char> = Vec::new();
            out.push('r');
            out.push('g');
            out.push('b');
            out.push('(');
            proof {
                assert(out@ =~= seq!['r', 'g', 'b', '(']);
            }
            push_comma_separated(&mut out, rgb.r, rgb.g, rgb.b);
            out.push(')');
            proof {
                assert(out@ =~= formatted(rgb, format, hsl));
            }
            string_of(out.as_slice())
        },
        CopyFormat::Hsl => {
            let mut out: Vec<char> = Vec::new();
            out.push('h');
            out.push('s');
            out.push('l');
            out.push('(');
            let dh = decimal(hsl.h);
            let ds = decimal(hsl.s as u16);
            let dl = decimal(hsl.l as u16);
            append(&mut out, &dh);
            out.push(',');
            out.push(' ');
            append(&mut out, &ds);
            out.push('%');
            out.push(',');
            out.push(' ');
            append(&mut out, &dl);
            out.push('%');
            out.push(')');
            proof {
                assert(out@ =~= hsl_text(hsl));
            }
            string_of(out.as_slice())
        },
        CopyFormat::RgbValues => {
            let mut out: Vec<char> = Vec::new();
            push_comma_separated(&mut out, rgb.r, rgb.g, rgb.b);
            proof {
                assert(out@ =~= formatted(rgb, format, hsl));
            }
            string_of(out.as_slice())
        },
    }
}

} // verus!
