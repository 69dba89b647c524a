//! RGBA colours and the premultiplied ARGB pixel word they are drawn with.

use vstd::prelude::*;

verus! {

/// A colour with straight (non-premultiplied) alpha, each channel 0-255.
#[derive(Debug, Clone, Copy, PartialEq, Eq, Structural)]
pub struct Rgba {
    pub r: u8,
    pub g: u8,
    pub b: u8,
    pub a: u8,
}

/// `channel * alpha / 255` rounded to the nearest integer, halves upwards:
/// the floor of `channel * alpha / 255 + 1/2`, written over integers.
pub open spec fn premultiply(channel: int, alpha: int) -> int {
    (2 * channel * alpha + 255) / 510
}

/// The 32-bit word with `a` in the top byte, then `r`, `g` and `b`.
pub open spec fn pack_argb(a: int, r: int, g: int, b: int) -> int {
    a * 0x100_0000 + r * 0x1_0000 + g * 0x100 + b
}

impl Rgba {
    /// The pixel word of this colour: alpha as it is, the three colour
    /// channels scaled by it.
    pub open spec fn premultiplied(self) -> int {
        pack_argb(
            self.a as int,
            premultiply(self.r as int, self.a as int),
            premultiply(self.g as int, self.a as int),
            premultiply(self.b as int, self.a as int),
        )
    }
}

/// Byte `k` (0 is the least significant) of a pixel word.
pub open spec fn word_byte(word: u32, k: int) -> u8 {
    if k == 0 {
        (word % 0x100) as u8
    } else if k == 1 {
        (word / 0x100 % 0x100) as u8
    } else if k == 2 {
        (word / 0x1_0000 % 0x100) as u8
    } else {
        (word / 0x100_0000) as u8
    }
}

/// A pixel word as it lies in memory: four bytes, least significant first.
pub open spec fn word_bytes(word: u32) -> Seq<u8> {
    Seq::new(4, |k: int| word_byte(word, k))
}

/// The rounding that `premultiply` names can be computed with one division
/// by 255, and a scaled channel never exceeds the alpha it was scaled by.
pub proof fn lemma_premultiply_by_255(channel: int, alpha: int)
    requires
        0 <= channel <= 255,
        0 <= alpha <= 255,
    ensures
        premultiply(channel, alpha) == (channel * alpha + 127) / 255,
        0 <= premultiply(channel, alpha) <= alpha,
{
    let x = channel * alpha;
    assert(0 <= x <= 255 * alpha) by (nonlinear_arith)
        requires
            x == channel * alpha,
            0 <= channel <= 255,
            0 <= alpha <= 255,
    ;
    assert(2 * channel * alpha == 2 * x) by (nonlinear_arith)
        requires
            x == channel * alpha,
    ;
    let q = (x + 127) / 255;
    assert(255 * q <= x + 127 < 255 * q + 255);
    assert(510 * q <= 2 * x + 255 < 510 * q + 510);
}

/// A premultiplied channel is the integer nearest to `channel * alpha / 255`:
/// it differs from that quotient by at most one half.
pub proof fn lemma_premultiply_is_nearest(channel: int, alpha: int)
    requires
        0 <= channel <= 255,
        0 <= alpha <= 255,
    ensures
        ({
            let p = premultiply(channel, alpha);
            510 * p <= 2 * (channel * alpha) + 255 < 510 * (p + 1)
        }),
{
    assert(2 * channel * alpha == 2 * (channel * alpha)) by (nonlinear_arith);
}

/// At full alpha premultiplication changes nothing: each channel of the
/// pixel word is the colour's own channel.
pub proof fn lemma_opaque_is_identity(color: Rgba)
    requires
        color.a == 255,
    ensures
        premultiply(color.r as int, 255) == color.r,
        premultiply(color.g as int, 255) == color.g,
        premultiply(color.b as int, 255) == color.b,
        color.premultiplied() == pack_argb(255, color.r as int, color.g as int, color.b as int),
{
}

/// The bytes of a packed word are its blue, green, red and alpha parts, in
/// that order.
pub proof fn lemma_bytes_of_packed(a: u8, r: u8, g: u8, b: u8)
    ensures
        0 <= pack_argb(a as int, r as int, g as int, b as int) <= u32::MAX,
        word_bytes(pack_argb(a as int, r as int, g as int, b as int) as u32) == seq![b, g, r, a],
{
    let w = pack_argb(a as int, r as int, g as int, b as int) as u32;
    let (a4, r4, g4, b4) = (a as u32, r as u32, g as u32, b as u32);
    assert(w == a4 * 0x100_0000 + r4 * 0x1_0000 + g4 * 0x100 + b4);
    assert(w % 0x100 == b4 && w / 0x100 % 0x100 == g4 && w / 0x1_0000 % 0x100 == r4 && w
        / 0x100_0000 == a4) by (bit_vector)
        requires
            a4 <= 255,
            r4 <= 255,
            g4 <= 255,
            b4 <= 255,
            w == a4 * 0x100_0000 + r4 * 0x1_0000 + g4 * 0x100 + b4,
    ;
    assert(word_bytes(w) =~= seq![b, g, r, a]);
}

/// The pixel word of a colour: its alpha in the top byte, then red, green
/// and blue, each scaled by the alpha.
pub fn premultiplied_argb(color: &Rgba) -> (word: u32)
    ensures
        word == color.premultiplied(),
{
    let a: u32 = color.a as u32;
    proof {
        lemma_premultiply_by_255(color.r as int, color.a as int);
        lemma_premultiply_by_255(color.g as int, color.a as int);
        lemma_premultiply_by_255(color.b as int, color.a as int);
        assert(color.r as int * a as int <= 255 * 255) by (nonlinear_arith)
            requires
                color.r <= 255,
                0 <= a <= 255,
        ;
        assert(color.g as int * a as int <= 255 * 255) by (nonlinear_arith)
            requires
                color.g <= 255,
                0 <= a <= 255,
        ;
        assert(color.b as int * a as int <= 255 * 255) by (nonlinear_arith)
            requires
                color.b <= 255,
                0 <= a <= 255,
        ;
    }
    let r: u32 = (color.r as u32 * a + 127) / 255;
    let g: u32 = (color.g as u32 * a + 127) / 255;
    let b: u32 = (color.b as u32 * a + 127) / 255;
    assert((a << 24) | (r << 16) | (g << 8) | b == a * 0x100_0000 + r * 0x1_0000 + g * 0x100 + b)
        by (bit_vector)
        requires
            a <= 255,
            r <= 255,
            g <= 255,
            b <= 255,
    ;
    (a << 24) | (r << 16) | (g << 8) | b
}

/// The four bytes of a pixel word in buffer order.
pub fn word_to_bytes(word: u32) -> (bytes: [u8; 4])
    ensures
        bytes@ == word_bytes(word),
{
    let bytes: [u8; 4] = [
        (word % 0x100) as u8,
        (word / 0x100 % 0x100) as u8,
        (word / 0x1_0000 % 0x100) as u8,
        (word / 0x100_0000) as u8,
    ];
    assert(bytes@ =~= word_bytes(word));
    bytes
}

} // verus!
