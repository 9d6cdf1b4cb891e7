//! Colours with fixed-point channels.
//!
//! A channel is an `i32` in units of `1 / ONE`. `ONE` is a multiple of 255, so
//! each 8-bit level has an exact channel value. The type does not confine a
//! channel to `0..=ONE`; whoever writes a colour clamps it.

use vstd::prelude::*;

verus! {

/// Channel value of full intensity.
pub const ONE: i32 = 16_711_680;

/// Channel units per 8-bit level: `ONE / 255`.
pub const LEVEL: i32 = 65_536;

/// Quotient rounded toward zero, as machine division rounds.
pub open spec fn quot(a: int, b: int) -> int
    recommends
        b > 0,
{
    if a >= 0 {
        a / b
    } else {
        -((-a) / b)
    }
}

/// `v` confined to `lo..=hi`.
pub open spec fn clamp(v: int, lo: int, hi: int) -> int
    recommends
        lo <= hi,
{
    if v < lo {
        lo
    } else if v > hi {
        hi
    } else {
        v
    }
}

/// The channel value of an 8-bit level: `b / 255` of full intensity.
pub open spec fn channel_of_byte(b: u8) -> int {
    quot(b as int * ONE as int, 255)
}

/// The 8-bit level of a channel value: scaled by 255, rounded toward zero and
/// confined to `0..=255`.
pub open spec fn byte_of_channel(c: int) -> int {
    clamp(quot(c * 255, ONE as int), 0, 255)
}

/// One of the four channels of a colour.
#[derive(Clone, Copy, Debug, PartialEq, Eq, Structural)]
pub enum Channel {
    Red,
    Green,
    Blue,
    Alpha,
}

/// A colour: red, green, blue and alpha.
#[derive(Clone, Copy, Debug, PartialEq, Eq, Structural)]
pub struct Color {
    pub r: i32,
    pub g: i32,
    pub b: i32,
    pub a: i32,
}

impl Color {
    /// The value of one channel.
    pub open spec fn channel(self, ch: Channel) -> int {
        match ch {
            Channel::Red => self.r as int,
            Channel::Green => self.g as int,
            Channel::Blue => self.b as int,
            Channel::Alpha => self.a as int,
        }
    }

    /// Opaque black.
    pub open spec fn black() -> Color {
        Color { r: 0, g: 0, b: 0, a: ONE }
    }

    /// The colour of four 8-bit levels.
    pub open spec fn of_bytes(r: u8, g: u8, b: u8, a: u8) -> Color {
        Color {
            r: channel_of_byte(r) as i32,
            g: channel_of_byte(g) as i32,
            b: channel_of_byte(b) as i32,
            a: channel_of_byte(a) as i32,
        }
    }

    /// Converts four 8-bit levels to a colour.
    pub fn from_bytes(r: u8, g: u8, b: u8, a: u8) -> (c: Color)
        ensures
            c == Color::of_bytes(r, g, b, a),
            c.r == channel_of_byte(r),
            c.g == channel_of_byte(g),
            c.b == channel_of_byte(b),
            c.a == channel_of_byte(a),
    {
        Color {
            r: channel_from_byte(r),
            g: channel_from_byte(g),
            b: channel_from_byte(b),
            a: channel_from_byte(a),
        }
    }
}

/// Converts an 8-bit level to its channel value.
pub fn channel_from_byte(b: u8) -> (c: i32)
    ensures
        c == channel_of_byte(b),
        0 <= c <= ONE,
{
    (b as i32) * LEVEL
}

/// Converts a channel value to its 8-bit level, clamping what lies outside
/// `0..=ONE`.
pub fn channel_to_byte(c: i32) -> (b: u8)
    ensures
        b == byte_of_channel(c as int),
{
    if c <= 0 {
        0
    } else if c >= ONE {
        255
    } else {
        (c / LEVEL) as u8
    }
}

/// Converting a level to a channel and back gives the level again.
pub proof fn lemma_byte_round_trip(b: u8)
    ensures
        byte_of_channel(channel_of_byte(b)) == b,
{
}

} // verus!
