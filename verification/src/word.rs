//! One extended Hamming(16,11) codeword, as a `u16`.
//!
//! Bit position `p` of the `u16` is bit position `p` of the codeword:
//! position 0 carries the overall parity bit, the power-of-two positions
//! 1, 2, 4 and 8 carry the Hamming check bits, and the remaining eleven
//! positions 3, 5, 6, 7, 9, 10, 11, 12, 13, 14, 15 carry the data bits in
//! increasing order.

use vstd::prelude::*;

verus! {

/// The eleven data bits of `d` (its low bits), moved to the data positions
/// of a codeword; parity positions are left zero.
pub open spec fn place_data(d: u16) -> u16 {
    (((d >> 0) & 1) << 3) | (((d >> 1) & 1) << 5) | (((d >> 2) & 1) << 6)
        | (((d >> 3) & 1) << 7) | (((d >> 4) & 1) << 9) | (((d >> 5) & 1) << 10)
        | (((d >> 6) & 1) << 11) | (((d >> 7) & 1) << 12) | (((d >> 8) & 1) << 13)
        | (((d >> 9) & 1) << 14) | (((d >> 10) & 1) << 15)
}

/// The eleven data bits of a codeword, gathered back into the low bits.
pub open spec fn data_of(w: u16) -> u16 {
    (((w >> 3) & 1) << 0) | (((w >> 5) & 1) << 1) | (((w >> 6) & 1) << 2)
        | (((w >> 7) & 1) << 3) | (((w >> 9) & 1) << 4) | (((w >> 10) & 1) << 5)
        | (((w >> 11) & 1) << 6) | (((w >> 12) & 1) << 7) | (((w >> 13) & 1) << 8)
        | (((w >> 14) & 1) << 9) | (((w >> 15) & 1) << 10)
}

/// Whether `x` has an odd number of set bits.
pub open spec fn parity(x: u16) -> bool {
    ((x >> 0) ^ (x >> 1) ^ (x >> 2) ^ (x >> 3) ^ (x >> 4) ^ (x >> 5) ^ (x >> 6) ^ (x >> 7)
        ^ (x >> 8) ^ (x >> 9) ^ (x >> 10) ^ (x >> 11) ^ (x >> 12) ^ (x >> 13) ^ (x >> 14)
        ^ (x >> 15)) & 1 == 1
}

/// The syndrome of `w`: check `k` (for `k` in 0..4) XOR-reduces the bit
/// positions whose index has bit `k` set, the check bit at position `2^k`
/// included; a failing check contributes `2^k` to the syndrome.
pub open spec fn syndrome(w: u16) -> u16 {
    (if parity(w & 0xAAAA) { 1u16 } else { 0u16 })
        | (if parity(w & 0xCCCC) { 2u16 } else { 0u16 })
        | (if parity(w & 0xF0F0) { 4u16 } else { 0u16 })
        | (if parity(w & 0xFF00) { 8u16 } else { 0u16 })
}

/// Each Hamming check bit set on an already-placed word `pl`, so that its
/// parity group XOR-reduces to zero.
pub open spec fn check_bits(pl: u16) -> u16 {
    pl | (if parity(pl & 0xAAAA) { 0x0002u16 } else { 0u16 })
        | (if parity(pl & 0xCCCC) { 0x0004u16 } else { 0u16 })
        | (if parity(pl & 0xF0F0) { 0x0010u16 } else { 0u16 })
        | (if parity(pl & 0xFF00) { 0x0100u16 } else { 0u16 })
}

/// The overall parity bit at position 0 set so that the whole 16-bit word
/// has even parity.
pub open spec fn seal_parity(cb: u16) -> u16 {
    cb | (if parity(cb) { 1u16 } else { 0u16 })
}

/// The codeword for the eleven data bits of `d`: data placed, check bits
/// set, overall parity bit set.
pub open spec fn codeword_of(d: u16) -> u16 {
    seal_parity(check_bits(place_data(d)))
}

/// The SECDED decision for one received word `w`:
/// - syndrome 0: no error, or an error in the overall parity bit alone;
///   the data bits are accepted as they stand;
/// - syndrome nonzero and overall parity mismatching: a single-bit error at
///   the syndrome position; that bit is flipped, then the data is accepted;
/// - syndrome nonzero and overall parity matching: a double-bit error,
///   uncorrectable.
pub open spec fn decoded_data(w: u16) -> Option<u16> {
    if syndrome(w) == 0 {
        Some(data_of(w))
    } else if parity(w) {
        Some(data_of(w ^ (1u16 << syndrome(w))))
    } else {
        None
    }
}

/// Whether `x` has an odd number of set bits.
fn parity_of(x: u16) -> (b: bool)
    ensures
        b == parity(x),
{
    let t: u16 = (x >> 0) ^ (x >> 1) ^ (x >> 2) ^ (x >> 3) ^ (x >> 4) ^ (x >> 5) ^ (x >> 6)
        ^ (x >> 7) ^ (x >> 8) ^ (x >> 9) ^ (x >> 10) ^ (x >> 11) ^ (x >> 12) ^ (x >> 13)
        ^ (x >> 14) ^ (x >> 15);
    (t & 1) == 1
}

/// Encode eleven data bits (the low bits of `d`) into one codeword.
pub fn encode_codeword(d: u16) -> (w: u16)
    requires
        d < 0x800,
    ensures
        w == codeword_of(d),
{
    let placed: u16 = (((d >> 0) & 1) << 3) | (((d >> 1) & 1) << 5) | (((d >> 2) & 1) << 6)
        | (((d >> 3) & 1) << 7) | (((d >> 4) & 1) << 9) | (((d >> 5) & 1) << 10)
        | (((d >> 6) & 1) << 11) | (((d >> 7) & 1) << 12) | (((d >> 8) & 1) << 13)
        | (((d >> 9) & 1) << 14) | (((d >> 10) & 1) << 15);
    assert(placed == place_data(d));
    let c0: u16 = if parity_of(placed & 0xAAAA) { 0x0002 } else { 0 };
    let c1: u16 = if parity_of(placed & 0xCCCC) { 0x0004 } else { 0 };
    let c2: u16 = if parity_of(placed & 0xF0F0) { 0x0010 } else { 0 };
    let c3: u16 = if parity_of(placed & 0xFF00) { 0x0100 } else { 0 };
    let checked: u16 = placed | c0 | c1 | c2 | c3;
    assert(checked == check_bits(place_data(d)));
    let overall: u16 = if parity_of(checked) { 1 } else { 0 };
    checked | overall
}

/// Decode one received word: `Some` of the eleven recovered data bits, or
/// `None` on a detected double-bit error.
pub fn decode_codeword(w: u16) -> (r: Option<u16>)
    ensures
        r == decoded_data(w),
{
    let s0: u16 = if parity_of(w & 0xAAAA) { 1 } else { 0 };
    let s1: u16 = if parity_of(w & 0xCCCC) { 2 } else { 0 };
    let s2: u16 = if parity_of(w & 0xF0F0) { 4 } else { 0 };
    let s3: u16 = if parity_of(w & 0xFF00) { 8 } else { 0 };
    let s: u16 = s0 | s1 | s2 | s3;
    assert(s == syndrome(w));
    proof {
        assert(syndrome(w) < 16) by (bit_vector);
    }
    if s == 0 {
        Some(gather_data(w))
    } else if parity_of(w) {
        Some(gather_data(w ^ (1u16 << s)))
    } else {
        None
    }
}

/// Gather the eleven data bits of `w` into the low bits.
fn gather_data(w: u16) -> (d: u16)
    ensures
        d == data_of(w),
{
    (((w >> 3) & 1) << 0) | (((w >> 5) & 1) << 1) | (((w >> 6) & 1) << 2)
        | (((w >> 7) & 1) << 3) | (((w >> 9) & 1) << 4) | (((w >> 10) & 1) << 5)
        | (((w >> 11) & 1) << 6) | (((w >> 12) & 1) << 7) | (((w >> 13) & 1) << 8)
        | (((w >> 14) & 1) << 9) | (((w >> 15) & 1) << 10)
}

/// An undisturbed codeword decodes to exactly the data it was built from:
/// its syndrome is zero, its overall parity is even, and gathering the data
/// positions returns the original eleven bits.
pub proof fn lemma_codeword_no_error(d: u16)
    requires
        d < 0x800,
    ensures
        syndrome(codeword_of(d)) == 0,
        !parity(codeword_of(d)),
        data_of(codeword_of(d)) == d,
        decoded_data(codeword_of(d)) == Some(d),
{
    let pl: u16 = place_data(d);
    let cb: u16 = check_bits(pl);
    let w: u16 = seal_parity(cb);
    assert(syndrome(w) == 0 && !parity(w) && data_of(w) == d) by (bit_vector)
        requires
            d < 0x800,
            pl == place_data(d),
            cb == check_bits(pl),
            w == seal_parity(cb),
    ;
}

/// Law: single-bit correction. Flipping any one of the sixteen bit positions
/// of a codeword, the overall parity position included, still decodes to the
/// original eleven data bits.
pub proof fn lemma_single_flip(d: u16, p: u16)
    requires
        d < 0x800,
        p < 16,
    ensures
        decoded_data(codeword_of(d) ^ (1u16 << p)) == Some(d),
{
    let pl: u16 = place_data(d);
    let cb: u16 = check_bits(pl);
    let w: u16 = seal_parity(cb);
    let e: u16 = w ^ (1u16 << p);
    assert((p == 0 ==> syndrome(e) == 0 && data_of(e) == d) && (p != 0 ==> syndrome(e) == p
        && parity(e) && data_of(e ^ (1u16 << syndrome(e))) == d)) by (bit_vector)
        requires
            d < 0x800,
            p < 16,
            pl == place_data(d),
            cb == check_bits(pl),
            w == seal_parity(cb),
            e == w ^ (1u16 << p),
    ;
}

/// Law: double-bit detection. Flipping any two distinct bit positions of a
/// codeword leaves a word whose syndrome is nonzero while its overall parity
/// still matches, so decoding reports it uncorrectable rather than returning
/// wrong data.
pub proof fn lemma_double_flip(d: u16, p: u16, q: u16)
    requires
        d < 0x800,
        p < 16,
        q < 16,
        p != q,
    ensures
        decoded_data(codeword_of(d) ^ (1u16 << p) ^ (1u16 << q)) == None::<u16>,
{
    let pl: u16 = place_data(d);
    let cb: u16 = check_bits(pl);
    let w: u16 = seal_parity(cb);
    let e: u16 = w ^ (1u16 << p) ^ (1u16 << q);
    assert(syndrome(e) != 0 && !parity(e)) by (bit_vector)
        requires
            d < 0x800,
            p < 16,
            q < 16,
            pl == place_data(d),
            cb == check_bits(pl),
            w == seal_parity(cb),
            e == w ^ (1u16 << p) ^ (1u16 << q),
            p != q,
    ;
}

} // verus!
