use vstd::prelude::*;

verus! {

/// An RGB colour with one byte per channel.
pub struct Color {
    red: u8,
    green: u8,
    blue: u8,
}

impl View for Color {
    type V = (u8, u8, u8);

    closed spec fn view(&self) -> (u8, u8, u8) {
        (self.red, self.green, self.blue)
    }
}

/// Largest number that packs a colour: `0xFFFFFF`.
pub open spec fn max_color_number() -> int {
    0xFF_FFFF
}

/// The channels packed in `n` as `red * 65536 + green * 256 + blue`.
pub open spec fn rgb_of_number(n: int) -> (u8, u8, u8) {
    ((n / 65536) as u8, ((n % 65536) / 256) as u8, (n % 256) as u8)
}

/// The number that packs the channels `c`.
pub open spec fn number_of_rgb(c: (u8, u8, u8)) -> int {
    c.0 * 65536 + c.1 * 256 + c.2
}

/// An amount clamped into `0..=255`.
pub open spec fn clamp_channel(x: int) -> int {
    if x > 255 {
        255
    } else if x < 0 {
        0
    } else {
        x
    }
}

/// `a - k`, or `0` where that is negative.
pub open spec fn channel_minus(a: u8, k: int) -> u8 {
    if a - k < 0 {
        0
    } else {
        (a - k) as u8
    }
}

/// `a + k`, or `255` where that is larger.
pub open spec fn channel_plus(a: u8, k: int) -> u8 {
    if a + k > 255 {
        255
    } else {
        (a + k) as u8
    }
}

fn clamp_to_u8(x: i32) -> (r: u8)
    ensures
        r == clamp_channel(x as int),
{
    if x > 255 {
        255
    } else if x < 0 {
        0
    } else {
        x as u8
    }
}

impl Color {
    /// A colour from its three channels; each must lie in `0..=255`.
    pub fn from_rgb(r: i32, g: i32, b: i32) -> (c: Color)
        requires
            0 <= r <= 255,
            0 <= g <= 255,
            0 <= b <= 255,
        ensures
            c@ == (r as u8, g as u8, b as u8),
    {
        Color { red: r as u8, green: g as u8, blue: b as u8 }
    }

    /// The colour packed in `number` as `0xRRGGBB`.
    pub fn from_number(number: i32) -> (c: Color)
        requires
            0 <= number <= max_color_number(),
        ensures
            c@ == rgb_of_number(number as int),
    {
        Color::from_rgb(number / (256 * 256), (number % (256 * 256)) / 256, number % 256)
    }

    /// The colour packed as `0xRRGGBB`.
    pub fn to_number(&self) -> (n: i32)
        ensures
            n as int == number_of_rgb(self@),
            0 <= n <= max_color_number(),
    {
        (self.red as i32) * 256 * 256 + (self.green as i32) * 256 + (self.blue as i32)
    }

    /// Each channel lowered by `x` clamped into `0..=255`, stopping at `0`.
    pub fn darken(self, x: i32) -> (c: Color)
        ensures
            c@ == (
                channel_minus(self@.0, clamp_channel(x as int)),
                channel_minus(self@.1, clamp_channel(x as int)),
                channel_minus(self@.2, clamp_channel(x as int)),
            ),
            0 <= x <= 255 ==> c@.0 == (if self@.0 >= x { self@.0 - x } else { 0 }),
            0 <= x <= 255 ==> c@.1 == (if self@.1 >= x { self@.1 - x } else { 0 }),
            0 <= x <= 255 ==> c@.2 == (if self@.2 >= x { self@.2 - x } else { 0 }),
    {
        let x = clamp_to_u8(x);
        Color {
            red: self.red.saturating_sub(x),
            green: self.green.saturating_sub(x),
            blue: self.blue.saturating_sub(x),
        }
    }

    /// Each channel raised by `x` clamped into `0..=255`, stopping at `255`.
    pub fn lighten(self, x: i32) -> (c: Color)
        ensures
            c@ == (
                channel_plus(self@.0, clamp_channel(x as int)),
                channel_plus(self@.1, clamp_channel(x as int)),
                channel_plus(self@.2, clamp_channel(x as int)),
            ),
            0 <= x <= 255 ==> c@.0 == (if self@.0 + x <= 255 { self@.0 + x } else { 255 }),
            0 <= x <= 255 ==> c@.1 == (if self@.1 + x <= 255 { self@.1 + x } else { 255 }),
            0 <= x <= 255 ==> c@.2 == (if self@.2 + x <= 255 { self@.2 + x } else { 255 }),
    {
        let x = clamp_to_u8(x);
        Color {
            red: self.red.saturating_add(x),
            green: self.green.saturating_add(x),
            blue: self.blue.saturating_add(x),
        }
    }
}

/// Packing a colour into a number and unpacking it gives the colour back, and
/// every number in `0..=0xFFFFFF` is the packing of the colour it unpacks to.
pub proof fn lemma_color_number_roundtrip(c: (u8, u8, u8), n: int)
    requires
        0 <= n <= max_color_number(),
    ensures
        rgb_of_number(number_of_rgb(c)) == c,
        0 <= number_of_rgb(c) <= max_color_number(),
        number_of_rgb(rgb_of_number(n)) == n,
{
    let m = number_of_rgb(c);
    assert(m / 65536 == c.0 && (m % 65536) / 256 == c.1 && m % 256 == c.2) by (nonlinear_arith)
        requires
            m == c.0 * 65536 + c.1 * 256 + c.2,
            0 <= c.0 < 256,
            0 <= c.1 < 256,
            0 <= c.2 < 256,
    ;
    assert(n == (n / 65536) * 65536 + ((n % 65536) / 256) * 256 + n % 256) by (nonlinear_arith)
        requires
            0 <= n,
    ;
}

/// Darkening or lightening by an amount of zero or less leaves a colour as it
/// is; by 255 or more it gives black or white.
pub proof fn lemma_shade_extremes(c: (u8, u8, u8), x: int)
    ensures
        x <= 0 ==> (channel_minus(c.0, clamp_channel(x)), channel_minus(c.1, clamp_channel(x)),
            channel_minus(c.2, clamp_channel(x))) == c,
        x <= 0 ==> (channel_plus(c.0, clamp_channel(x)), channel_plus(c.1, clamp_channel(x)),
            channel_plus(c.2, clamp_channel(x))) == c,
        x >= 255 ==> (channel_minus(c.0, clamp_channel(x)), channel_minus(c.1, clamp_channel(x)),
            channel_minus(c.2, clamp_channel(x))) == (0u8, 0u8, 0u8),
        x >= 255 ==> (channel_plus(c.0, clamp_channel(x)), channel_plus(c.1, clamp_channel(x)),
            channel_plus(c.2, clamp_channel(x))) == (255u8, 255u8, 255u8),
{
}


/// Shading by an amount `x` in `0..=255` moves every channel by exactly `x`,
/// stopping at `0` when darkening and at `255` when lightening.
pub proof fn lemma_shade_channels(a: u8, x: int)
    requires
        0 <= x <= 255,
    ensures
        channel_minus(a, clamp_channel(x)) == (if a >= x { a - x } else { 0 }),
        channel_plus(a, clamp_channel(x)) == (if a + x <= 255 { a + x } else { 255 }),
{
}

} // verus!
