//! 24-bit `0xRRGGBB` colors split into and joined from their sRGB bytes.

use vstd::prelude::*;

verus! {

/// The red, green and blue bytes of `0xRRGGBB` (bits above the low 24 are
/// ignored, as a `u8` cast of each shifted value drops them).
pub open spec fn rgb_spec(hex: nat) -> [u8; 3] {
    [((hex / 65536) % 256) as u8, ((hex / 256) % 256) as u8, (hex % 256) as u8]
}

/// The 24-bit value of three sRGB bytes.
pub open spec fn hex_spec(c: [u8; 3]) -> nat {
    (c[0] as nat) * 65536 + (c[1] as nat) * 256 + c[2] as nat
}

/// `[(hex >> 16) as u8, (hex >> 8) as u8, hex as u8]`.
pub fn rgb_of(hex: u32) -> (c: [u8; 3])
    ensures
        c == rgb_spec(hex as nat),
{
    [((hex / 65536) % 256) as u8, ((hex / 256) % 256) as u8, (hex % 256) as u8]
}

/// Splitting a color that was joined from bytes gives the bytes back.
pub proof fn lemma_rgb_hex(c: [u8; 3])
    ensures
        rgb_spec(hex_spec(c)) == c,
        hex_spec(c) < 0x100_0000,
{
    let (r, g, b) = (c[0] as nat, c[1] as nat, c[2] as nat);
    let h = r * 65536 + g * 256 + b;
    assert(h / 65536 == r && (h / 256) % 256 == g && h % 256 == b) by (nonlinear_arith)
        requires
            h == r * 65536 + g * 256 + b,
            r < 256,
            g < 256,
            b < 256,
    ;
    assert(rgb_spec(h) =~= c);
}

/// The theme slot a request for theme `i` lands on, among `base` built-in
/// themes followed by the custom one: requests past the end select the custom
/// theme (slot `base`).
pub fn theme_slot(i: usize, base: usize) -> (r: usize)
    ensures
        r == if i < base {
            i
        } else {
            base
        },
{
    if i < base {
        i
    } else {
        base
    }
}

} // verus!
