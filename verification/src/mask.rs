//! The error injector: a random bit mask that, XOR-combined with an encoded
//! stream, simulates a noisy channel.
//!
//! A mask is a byte stream of the same length as the encoded stream; bit `i`
//! of the mask (least-significant-bit first within each byte) says "flip bit
//! `i` of the encoded stream". The injector never inspects codeword
//! structure.

use vstd::prelude::*;
use rand::Rng;

verus! {

/// The bitwise XOR of two equally long byte streams.
pub open spec fn xor_stream(a: Seq<u8>, b: Seq<u8>) -> Seq<u8>
    recommends
        a.len() == b.len(),
{
    Seq::new(a.len(), |i: int| a[i] ^ b[i])
}

/// A byte stream brought to length `l`: truncated on the right, or extended
/// with zero bytes (no error in the new positions).
pub open spec fn resized(s: Seq<u8>, l: int) -> Seq<u8>
    recommends
        l >= 0,
{
    Seq::new(l as nat, |i: int| if i < s.len() { s[i] } else { 0u8 })
}

/// Relies on rand::Rng::gen_range, on the generator of rand::thread_rng():
/// a draw from the non-empty range `0..den` lies in that range. Nothing
/// else is assumed of the draw.
#[verifier::external_body]
fn draw_below(den: u64) -> (r: u64)
    requires
        den > 0,
    ensures
        r < den,
{
    rand::thread_rng().gen_range(0..den)
}

/// Generate a fresh error mask of `len` bytes, 8 mask bits per byte. Each
/// bit is drawn independently: it is set exactly when a uniform draw from
/// `0..den` falls below `num`, so with probability `num / den`.
///
/// The probability is passed as the rational `num / den` in `[0, 1]`.
/// The two deterministic edges are pinned: probability zero yields the
/// all-zero mask and probability one the all-one mask, whatever the length.
pub fn generate_mask(len: usize, num: u64, den: u64) -> (mask: Vec<u8>)
    requires
        den > 0,
        num <= den,
    ensures
        mask@.len() == len,
        num == 0 ==> mask@ == Seq::new(len as nat, |i: int| 0u8),
        num == den ==> mask@ == Seq::new(len as nat, |i: int| 0xFFu8),
{
    let mut mask: Vec<u8> = Vec::new();
    let mut i: usize = 0;
    while i < len
        invariant
            i <= len,
            den > 0,
            num <= den,
            mask@.len() == i,
            num == 0 ==> forall|x: int| 0 <= x < i ==> mask@[x] == 0u8,
            num == den ==> forall|x: int| 0 <= x < i ==> mask@[x] == 0xFFu8,
        decreases len - i,
    {
        let mut b: u8 = 0;
        let mut j: usize = 0;
        proof {
            assert((1u16 << 0u16) == 1) by (bit_vector);
        }
        while j < 8
            invariant
                j <= 8,
                den > 0,
                num <= den,
                num == 0 ==> b == 0u8,
                num == den ==> (b as u16) == (1u16 << (j as u16)) - 1,
            decreases 8 - j,
        {
            let ghost b0 = b;
            let r = draw_below(den);
            if r < num {
                b = b | (1u8 << j);
            }
            proof {
                let ju: u16 = j as u16;
                let jn: u16 = (j + 1) as u16;
                assert(((b0 as u16) == (1u16 << ju) - 1 && jn == ju + 1 && ju < 8) ==> (((b0 | (
                1u8 << (ju as u8))) as u16) == (1u16 << jn) - 1)) by (bit_vector);
            }
            j += 1;
        }
        proof {
            assert(((b as u16) == (1u16 << 8u16) - 1) ==> b == 0xFFu8) by (bit_vector);
        }
        mask.push(b);
        i += 1;
    }
    proof {
        if num == 0 {
            assert(mask@ =~= Seq::new(len as nat, |i: int| 0u8));
        }
        if num == den {
            assert(mask@ =~= Seq::new(len as nat, |i: int| 0xFFu8));
        }
    }
    mask
}

/// Bring a mask to a new length, keeping previously injected errors where
/// possible: surplus bytes are cut, missing bytes come in as zero.
pub fn resize_mask(mask: &mut Vec<u8>, new_len: usize)
    ensures
        final(mask)@ == resized(old(mask)@, new_len as int),
{
    let mut out: Vec<u8> = Vec::new();
    let mut i: usize = 0;
    while i < new_len
        invariant
            i <= new_len,
            mask@ == old(mask)@,
            out@.len() == i,
            forall|x: int|
                0 <= x < i ==> out@[x] == (if x < old(mask)@.len() {
                    old(mask)@[x]
                } else {
                    0u8
                }),
        decreases new_len - i,
    {
        let v = if i < mask.len() {
            mask[i]
        } else {
            0u8
        };
        out.push(v);
        i += 1;
    }
    *mask = out;
    proof {
        assert(mask@ =~= resized(old(mask)@, new_len as int));
    }
}

/// XOR-combine an encoded stream with an equally long error mask.
pub fn xor_bytes(a: &Vec<u8>, b: &Vec<u8>) -> (out: Vec<u8>)
    requires
        a@.len() == b@.len(),
    ensures
        out@ == xor_stream(a@, b@),
{
    let mut out: Vec<u8> = Vec::new();
    let mut i: usize = 0;
    while i < a.len()
        invariant
            i <= a@.len(),
            a@.len() == b@.len(),
            out@.len() == i,
            forall|x: int| 0 <= x < i ==> out@[x] == (a@[x] ^ b@[x]),
        decreases a@.len() - i,
    {
        out.push(a[i] ^ b[i]);
        i += 1;
    }
    proof {
        assert(out@ =~= xor_stream(a@, b@));
    }
    out
}

/// A mask whose only set bit is stream bit `i`.
pub open spec fn one_bit_mask(l: int, i: int) -> Seq<u8>
    recommends
        0 <= i < 8 * l,
{
    Seq::new(l as nat, |x: int| if x == i / 8 {
        1u8 << (i % 8)
    } else {
        0u8
    })
}

/// A mask whose only set bits are stream bits `i` and `j`.
pub open spec fn two_bit_mask(l: int, i: int, j: int) -> Seq<u8>
    recommends
        0 <= i < 8 * l,
        0 <= j < 8 * l,
        i != j,
{
    Seq::new(l as nat, |x: int| (if x == i / 8 {
        1u8 << (i % 8)
    } else {
        0u8
    }) | (if x == j / 8 {
        1u8 << (j % 8)
    } else {
        0u8
    }))
}

/// Law: XOR with an all-zero mask leaves a stream unchanged.
pub proof fn lemma_xor_zero_mask(a: Seq<u8>)
    ensures
        xor_stream(a, Seq::new(a.len(), |i: int| 0u8)) == a,
{
    assert forall|i: int| 0 <= i < a.len() implies xor_stream(a, Seq::new(a.len(), |x: int| 0u8))[i]
        == a[i] by {
        let v = a[i];
        assert(v ^ 0u8 == v) by (bit_vector);
    }
    assert(xor_stream(a, Seq::new(a.len(), |i: int| 0u8)) =~= a);
}

} // verus!
