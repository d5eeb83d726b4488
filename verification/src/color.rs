//! Colors: three 8-bit channels that never leave `0..=255`.

use vstd::prelude::*;
use crate::arith::{floor_div_i128, lemma_product_bound};
use crate::fixed::{Fixed, SCALE};

verus! {

/// Red, green and blue.
#[derive(Clone, Copy, Debug, PartialEq, Eq, Structural)]
pub struct Color(pub u8, pub u8, pub u8);

/// One channel multiplied by `factor`: rounded down, and held at 255 from
/// above and at 0 from below.
pub open spec fn scale_channel(channel: u8, factor: Fixed) -> u8 {
    let v = (channel * factor@) / (SCALE as int);
    if v > 255 {
        255u8
    } else if v < 0 {
        0u8
    } else {
        v as u8
    }
}

/// The sum of two channels, held at 255.
pub open spec fn add_channel(a: u8, b: u8) -> u8 {
    if a + b > 255 {
        255u8
    } else {
        (a + b) as u8
    }
}

/// One channel under light of the given intensity.
fn scaled(channel: u8, factor: Fixed) -> (r: u8)
    ensures
        r == scale_channel(channel, factor),
{
    proof {
        lemma_product_bound(channel as int, factor@);
    }
    let product: i128 = (channel as i128) * (factor.raw as i128);
    let v: i128 = floor_div_i128(product, 1_000_000);
    if v > 255 {
        255
    } else if v < 0 {
        0
    } else {
        v as u8
    }
}

impl Color {
    /// Every channel multiplied by `factor`, within `0..=255`.
    pub open spec fn spec_scale(self, factor: Fixed) -> Color {
        Color(
            scale_channel(self.0, factor),
            scale_channel(self.1, factor),
            scale_channel(self.2, factor),
        )
    }

    /// The channel-wise sum, held at 255.
    pub open spec fn spec_add(self, rhs: Color) -> Color {
        Color(add_channel(self.0, rhs.0), add_channel(self.1, rhs.1), add_channel(self.2, rhs.2))
    }

    /// The color every canvas starts with and every ray that hits nothing returns.
    pub open spec fn spec_background() -> Color {
        Color(0, 0, 0)
    }

    /// The background color: black.
    #[verifier::when_used_as_spec(spec_background)]
    pub fn background() -> (r: Color)
        ensures
            r == Color::spec_background(),
    {
        Color(0, 0, 0)
    }

    /// This color under light of the given intensity.
    pub fn scale(&self, factor: Fixed) -> (r: Color)
        ensures
            r == self.spec_scale(factor),
    {
        Color(scaled(self.0, factor), scaled(self.1, factor), scaled(self.2, factor))
    }

    /// The channel-wise sum, held at 255.
    pub fn add(self, rhs: Color) -> (r: Color)
        ensures
            r == self.spec_add(rhs),
    {
        Color(
            self.0.saturating_add(rhs.0),
            self.1.saturating_add(rhs.1),
            self.2.saturating_add(rhs.2),
        )
    }

    /// Scales this color in place.
    pub fn intensify(&mut self, factor: Fixed)
        ensures
            *final(self) == old(self).spec_scale(factor),
    {
        let r: u8 = scaled(self.0, factor);
        let g: u8 = scaled(self.1, factor);
        let b: u8 = scaled(self.2, factor);
        self.0 = r;
        self.1 = g;
        self.2 = b;
    }
}

impl std::ops::Add for Color {
    type Output = Color;

    fn add(self, rhs: Color) -> (r: Color) {
        Color(
            self.0.saturating_add(rhs.0),
            self.1.saturating_add(rhs.1),
            self.2.saturating_add(rhs.2),
        )
    }
}

impl vstd::std_specs::ops::AddSpecImpl for Color {
    open spec fn obeys_add_spec() -> bool {
        true
    }

    open spec fn add_req(self, rhs: Color) -> bool {
        true
    }

    open spec fn add_spec(self, rhs: Color) -> Color {
        self.spec_add(rhs)
    }
}

} // verus!
