//! The colorizer: a fixed map from an iteration count to an opaque RGBA pixel.

use vstd::prelude::*;
use vstd::arithmetic::div_mod::lemma_mod_multiples_vanish;

verus! {

/// Multiplier of the red channel.
pub const RED_FACTOR: u32 = 7727;

/// Multiplier of the green channel.
pub const GREEN_FACTOR: u32 = 6151;

/// Multiplier of the blue channel.
pub const BLUE_FACTOR: u32 = 5107;

/// Value of the alpha channel: every pixel is opaque.
pub const OPAQUE: u8 = 255;

/// One pixel, channel by channel.
#[derive(Clone, Copy, Debug, PartialEq, Eq, Structural)]
pub struct Rgba {
    pub r: u8,
    pub g: u8,
    pub b: u8,
    pub a: u8,
}

/// The value of one channel: the count times the channel's factor, modulo 256.
pub open spec fn channel_value(k: nat, factor: nat) -> u8 {
    ((k * factor) % 256) as u8
}

/// The colour of an iteration count.
pub open spec fn color_of(k: nat) -> Rgba {
    Rgba {
        r: channel_value(k, RED_FACTOR as nat),
        g: channel_value(k, GREEN_FACTOR as nat),
        b: channel_value(k, BLUE_FACTOR as nat),
        a: OPAQUE,
    }
}

/// Computes one channel of the colour of `k`.
pub fn channel(k: u32, factor: u32) -> (v: u8)
    ensures
        v == channel_value(k as nat, factor as nat),
{
    let wide: u64 = k as u64;
    let f: u64 = factor as u64;
    assert(wide * f <= 0xffff_ffff * 0xffff_ffff) by (nonlinear_arith)
        requires
            wide <= 0xffff_ffff,
            f <= 0xffff_ffff,
    ;
    ((wide * f) % 256) as u8
}

/// Computes the colour of an iteration count. Total: every count has a colour.
pub fn colorize(k: u32) -> (c: Rgba)
    ensures
        c == color_of(k as nat),
{
    Rgba {
        r: channel(k, RED_FACTOR),
        g: channel(k, GREEN_FACTOR),
        b: channel(k, BLUE_FACTOR),
        a: OPAQUE,
    }
}

/// A channel wraps around: counts that lie 256 apart give the same value,
/// whatever the factor.
pub proof fn lemma_channel_periodic(k: nat, factor: nat)
    ensures
        channel_value(k + 256, factor) == channel_value(k, factor),
{
    assert((k + 256) * factor == 256 * factor + k * factor) by (nonlinear_arith);
    lemma_mod_multiples_vanish(factor as int, (k * factor) as int, 256);
}

/// The colorizer is periodic, hence not injective: two counts that lie 256
/// apart are painted alike.
pub proof fn lemma_color_periodic(k: nat)
    ensures
        color_of(k + 256) == color_of(k),
{
    lemma_channel_periodic(k, RED_FACTOR as nat);
    lemma_channel_periodic(k, GREEN_FACTOR as nat);
    lemma_channel_periodic(k, BLUE_FACTOR as nat);
}

} // verus!
