use vstd::prelude::*;

verus! {

/// Added to a rotated checksum before it is stored.
pub const MASK_DELTA: u32 = 0xa282ead8;

/// The stored form of a checksum: rotated right by 15 bits, then offset by `MASK_DELTA`.
pub open spec fn spec_mask(crc: u32) -> u32 {
    rotr(crc, 15).wrapping_add(MASK_DELTA)
}

pub open spec fn spec_unmask(masked: u32) -> u32 {
    rotr(masked.wrapping_sub(MASK_DELTA), 17)
}

/// Masks a checksum before storing it, so that the checksum of data that
/// embeds checksums is not degenerate.
pub fn crc32c_mask(crc: u32) -> (r: u32)
    ensures
        r == spec_mask(crc),
{
    ((crc >> 15) | (crc << 17)).wrapping_add(MASK_DELTA)
}

/// Inverse of `crc32c_mask`.
pub fn crc32c_unmask(masked_crc: u32) -> (r: u32)
    ensures
        r == spec_unmask(masked_crc),
        masked_crc == spec_mask(r),
{
    let rot = masked_crc.wrapping_sub(MASK_DELTA);
    let r = (rot >> 17) | (rot << 15);
    proof {
        lemma_rotate_inverse(rot);
    }
    r
}

/// Rotation right by `n` bits of a 32-bit word.
pub open spec fn rotr(x: u32, n: u32) -> u32 {
    ((x >> n) | (x << (32 - n) as u32)) as u32
}

proof fn lemma_rotate_inverse(x: u32)
    ensures
        rotr(rotr(x, 17), 15) == x,
        rotr(rotr(x, 15), 17) == x,
{
    assert(((((x >> 17u32) | (x << 15u32)) as u32) >> 15u32 | (((x >> 17u32) | (x << 15u32)) as u32) << 17u32) == x) by (bit_vector);
    assert(((((x >> 15u32) | (x << 17u32)) as u32) >> 17u32 | (((x >> 15u32) | (x << 17u32)) as u32) << 15u32) == x) by (bit_vector);
}

/// Unmasking undoes masking, for every checksum.
pub proof fn lemma_unmask_mask(crc: u32)
    ensures
        spec_unmask(spec_mask(crc)) == crc,
{
    lemma_rotate_inverse(crc);
}

} // verus!

verus! {

/// The CRC-32C (Castagnoli) checksum of a byte string.
pub uninterp spec fn crc32c_of(data: Seq<u8>) -> u32;

/// Relies on `crc32c::crc32c`: the CRC-32C of `data`, which depends on the
/// bytes alone.
#[verifier::external_body]
pub(crate) fn crc32c_value(data: &[u8]) -> (r: u32)
    ensures
        r == crc32c_of(data@),
{
    crc32c::crc32c(data)
}

} // verus!
