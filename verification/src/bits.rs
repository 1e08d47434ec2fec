//! Bit order: the card shifts bytes out in the mirror of the link's order.
use vstd::prelude::*;

verus! {

/// The byte that holds bit `i` of `b` at position `7 - i`.
pub open spec fn mirror(b: u8) -> u8 {
    ((b & 0x01) << 7) | ((b & 0x02) << 5) | ((b & 0x04) << 3) | ((b & 0x08) << 1)
        | ((b & 0x10) >> 1) | ((b & 0x20) >> 3) | ((b & 0x40) >> 5) | ((b & 0x80) >> 7)
}

/// Mirroring a byte twice gives the byte back.
pub proof fn lemma_mirror_involution(b: u8)
    ensures
        mirror(mirror(b)) == b,
{
    assert(mirror(mirror(b)) == b) by (bit_vector);
}

/// Trusted: calls `rppal::spi::reverse_bits` on a buffer of one byte. That
/// function replaces each byte of the buffer by `u8::reverse_bits` of it, so
/// the byte that comes back is the mirror image of `b`.
#[verifier::external_body]
fn reverse_bits(b: u8) -> (r: u8)
    ensures
        r == mirror(b),
{
    let mut buffer = [b];
    rppal::spi::reverse_bits(&mut buffer);
    buffer[0]
}

/// Reverses the bit order of one byte.
pub fn reverse_byte(b: u8) -> (r: u8)
    ensures
        r == mirror(b),
        mirror(r) == b,
{
    proof {
        lemma_mirror_involution(b);
    }
    reverse_bits(b)
}

} // verus!
