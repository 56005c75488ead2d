//! Colours with eight bits a channel.

use vstd::prelude::*;
use crate::fixed::{ONE, floor_div, lemma_div_exact, lemma_div_monotone};

verus! {

/// Red, green, blue and opacity.
#[derive(Clone, Copy, Debug, PartialEq, Eq, Structural)]
pub struct Rgba {
    pub r: u8,
    pub g: u8,
    pub b: u8,
    pub a: u8,
}

/// A channel as a fixed-point number between zero and one.
pub open spec fn channel_level(c: int) -> int {
    (c * ONE) / 255
}

/// A fixed-point number between zero and one as a channel: 255 times the
/// number, rounded down.
pub open spec fn level_channel(level: int) -> int {
    (level * 255) / (ONE as int)
}

impl Rgba {
    /// An opaque colour.
    pub fn from_rgb(r: u8, g: u8, b: u8) -> (c: Rgba)
        ensures
            c == (Rgba { r, g, b, a: 255 }),
    {
        Rgba { r, g, b, a: 255 }
    }

    pub fn r(&self) -> (r: u8)
        ensures
            r == self.r,
    {
        self.r
    }

    pub fn g(&self) -> (r: u8)
        ensures
            r == self.g,
    {
        self.g
    }

    pub fn b(&self) -> (r: u8)
        ensures
            r == self.b,
    {
        self.b
    }
}

/// A channel as a fixed-point number between zero and one.
pub fn channel_to_level(c: u8) -> (r: i64)
    ensures
        r == channel_level(c as int),
        0 <= r <= ONE,
{
    proof {
        lemma_div_monotone(0, c * ONE, 255);
        lemma_div_monotone(c * ONE, ONE * 255, 255);
        lemma_div_exact(ONE as int, 255);
    }
    let q: i128 = floor_div((c as i128) * (ONE as i128), 255);
    q as i64
}

/// A fixed-point number between zero and one as a channel.
pub fn level_to_channel(level: i64) -> (r: u8)
    requires
        0 <= level <= ONE,
    ensures
        r == level_channel(level as int),
{
    proof {
        lemma_div_monotone(0, level * 255, ONE as int);
        lemma_div_monotone(level * 255, 255 * ONE, ONE as int);
        lemma_div_exact(255, ONE as int);
    }
    let q: i128 = floor_div((level as i128) * 255, ONE as i128);
    q as u8
}

} // verus!
