//! Escape sequences around an image: entering and leaving Sixel mode, and defining
//! color registers.
use vstd::prelude::*;
use crate::decimal::{decimal, push_decimal};
use crate::image::{Sixel, COLOR_MARK};

verus! {

/// ASCII escape.
pub const ESC: u8 = 0x1b;

/// The byte `;` between the fields of a color definition.
pub const FIELD_SEPARATOR: u8 = 59;

/// Number of registers that `hls` defines.
pub const HLS_REGISTERS: u16 = 360;

/// A color that a register can hold.
#[derive(Debug, Clone, Copy)]
pub enum SixelColor {
    /// Red, green and blue, each in percent from 0 to 100.
    Rgb(u8, u8, u8),
    /// Hue in degrees from 0 to 360, lightness and saturation in percent from 0 to 100.
    Hls(u16, u8, u8),
}

/// `ESC P q`, which enters Sixel mode.
pub open spec fn enter_sequence() -> Seq<u8> {
    seq![ESC, 80u8, 113u8]
}

/// `ESC \`, which leaves Sixel mode.
pub open spec fn leave_sequence() -> Seq<u8> {
    seq![ESC, 92u8]
}

/// `#<code>;<space>;<a>;<b>;<c>`, where the space is 1 for HLS and 2 for RGB.
pub open spec fn color_definition(code: u16, color: SixelColor) -> Seq<u8> {
    let (space, a, b, c) = match color {
        SixelColor::Hls(h, l, s) => (1nat, h as nat, l as nat, s as nat),
        SixelColor::Rgb(r, g, b) => (2nat, r as nat, g as nat, b as nat),
    };
    seq![COLOR_MARK] + decimal(code as nat) + seq![FIELD_SEPARATOR] + decimal(space) + seq![
        FIELD_SEPARATOR,
    ] + decimal(a) + seq![FIELD_SEPARATOR] + decimal(b) + seq![FIELD_SEPARATOR] + decimal(c)
}

/// The color that `hls` puts in register `i`: the register's share of 360, scaled to
/// 0..100 and rounded down, as hue, with lightness 50 and saturation 100.
pub open spec fn hls_entry(i: u16) -> SixelColor {
    SixelColor::Hls((i * 100 / 360) as u16, 50, 100)
}

/// The definitions of registers `0..n` of the `hls` palette, in order.
pub open spec fn hls_palette(n: nat) -> Seq<u8>
    decreases n,
{
    if n == 0 {
        Seq::empty()
    } else {
        hls_palette((n - 1) as nat) + color_definition((n - 1) as u16, hls_entry((n - 1) as u16))
    }
}

impl Sixel {
    /// Appends `ESC P q`, which enters Sixel mode.
    pub fn init(output: &mut Vec<u8>)
        ensures
            final(output)@ == old(output)@ + enter_sequence(),
    {
        output.push(ESC);
        output.push(80u8);
        output.push(113u8);
        assert(output@ =~= old(output)@ + enter_sequence());
    }

    /// Appends `ESC \`, which leaves Sixel mode.
    pub fn deinit(output: &mut Vec<u8>)
        ensures
            final(output)@ == old(output)@ + leave_sequence(),
    {
        output.push(ESC);
        output.push(92u8);
        assert(output@ =~= old(output)@ + leave_sequence());
    }

    /// Appends the definition of register `code` as `color`.
    pub fn init_color(output: &mut Vec<u8>, code: u16, color: SixelColor)
        ensures
            final(output)@ == old(output)@ + color_definition(code, color),
    {
        let (space, a, b, c): (u64, u64, u64, u64) = match color {
            SixelColor::Hls(h, l, s) => (1, h as u64, l as u64, s as u64),
            SixelColor::Rgb(r, g, b) => (2, r as u64, g as u64, b as u64),
        };
        output.push(COLOR_MARK);
        push_decimal(output, code as u64);
        output.push(FIELD_SEPARATOR);
        push_decimal(output, space);
        output.push(FIELD_SEPARATOR);
        push_decimal(output, a);
        output.push(FIELD_SEPARATOR);
        push_decimal(output, b);
        output.push(FIELD_SEPARATOR);
        push_decimal(output, c);
        assert(output@ =~= old(output)@ + color_definition(code, color));
    }

    /// Appends definitions of registers 0 to 359, spreading hues over the registers.
    pub fn hls(output: &mut Vec<u8>)
        ensures
            final(output)@ == old(output)@ + hls_palette(HLS_REGISTERS as nat),
    {
        let mut i: u16 = 0;
        while i < HLS_REGISTERS
            invariant
                i <= HLS_REGISTERS,
                output@ == old(output)@ + hls_palette(i as nat),
            decreases HLS_REGISTERS - i,
        {
            let hue: u16 = i * 100 / 360;
            Sixel::init_color(output, i, SixelColor::Hls(hue, 50, 100));
            proof {
                assert(hls_palette((i + 1) as nat) == hls_palette(i as nat) + color_definition(
                    i,
                    hls_entry(i),
                ));
            }
            assert(output@ =~= old(output)@ + hls_palette((i + 1) as nat));
            i = i + 1;
        }
    }
}

} // verus!
