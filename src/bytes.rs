//! Bit-level views of byte strings: population counts, Hamming distance and
//! the packing of one bit per output position into bytes.
use vstd::prelude::*;

verus! {

/// Number of one bits in a byte.
pub open spec fn popcount(x: u8) -> nat
    decreases x,
{
    if x == 0 {
        0
    } else {
        (x % 2) as nat + popcount(x / 2)
    }
}

/// Number of bit positions at which two equally long byte strings differ.
pub open spec fn hamming(a: Seq<u8>, b: Seq<u8>) -> nat
    decreases a.len(),
{
    if a.len() == 0 {
        0
    } else {
        popcount(a.last() ^ b[a.len() - 1]) + hamming(a.drop_last(), b.drop_last())
    }
}

/// Relies on bitarray's `BitArray::distance`: the sum over the bytes of the one bits of
/// their exclusive or, as a `u32` (which holds it while `8 * B` does).
#[verifier::external_body]
pub(crate) fn distance<const B: usize>(a: &[u8; B], b: &[u8; B]) -> (r: u32)
    requires
        B * 8 <= u32::MAX,
    ensures
        r as nat == hamming(a@, b@),
{
    bitarray::BitArray::new(*a).distance(&bitarray::BitArray::new(*b))
}

proof fn lemma_popcount_below(x: u8, k: nat)
    requires
        (x as nat) < vstd::arithmetic::power2::pow2(k),
    ensures
        popcount(x) <= k,
    decreases k,
{
    vstd::arithmetic::power2::lemma2_to64();
    if x != 0 && k > 0 {
        vstd::arithmetic::power2::lemma_pow2_unfold(k);
        lemma_popcount_below(x / 2, (k - 1) as nat);
    }
}

/// Two byte strings of `len` bytes differ in at most `8 * len` bits.
pub proof fn lemma_hamming_bound(a: Seq<u8>, b: Seq<u8>)
    requires
        a.len() == b.len(),
    ensures
        hamming(a, b) <= 8 * a.len(),
    decreases a.len(),
{
    if a.len() > 0 {
        vstd::arithmetic::power2::lemma2_to64();
        lemma_popcount_below(a.last() ^ b[a.len() - 1], 8);
        lemma_hamming_bound(a.drop_last(), b.drop_last());
    }
}

/// Bit `ix` of a byte string: bit `ix % 8` of byte `ix / 8`, least significant first.
pub open spec fn bit_at(bytes: Seq<u8>, ix: int) -> bool {
    (bytes[ix / 8] >> ((ix % 8) as u8)) & 1u8 == 1u8
}

proof fn lemma_set_bit(byte: u8, k: u8, j: u8)
    requires
        k < 8,
        j < 8,
    ensures
        ((byte | (1u8 << k)) >> j) & 1u8 == (if j == k { 1u8 } else { (byte >> j) & 1u8 }),
{
    assert(((byte | (1u8 << k)) >> j) & 1u8 == (if j == k { 1u8 } else { (byte >> j) & 1u8 }))
        by (bit_vector)
        requires
            k < 8,
            j < 8,
    ;
}

proof fn lemma_zero_bits(j: u8)
    requires
        j < 8,
    ensures
        (0u8 >> j) & 1u8 == 0u8,
{
    assert((0u8 >> j) & 1u8 == 0u8) by (bit_vector);
}

/// Packs `bits` into `H` bytes, bit `ix` of the result being `bits[ix]`.
pub fn pack_bits<const H: usize>(bits: &Vec<bool>) -> (r: [u8; H])
    requires
        bits@.len() == H * 8,
    ensures
        r@.len() == H,
        forall|ix: int| 0 <= ix < H * 8 ==> bit_at(r@, ix) == bits@[ix],
{
    let total = bits.len();
    let mut out: [u8; H] = [0u8; H];
    let mut i: usize = 0;
    while i < H
        invariant
            i <= H,
            bits@.len() == H * 8,
            total == H * 8,
            out@.len() == H,
            forall|ix: int| 0 <= ix < i * 8 ==> bit_at(out@, ix) == bits@[ix],
        decreases H - i,
    {
        let mut byte: u8 = 0;
        let mut k: usize = 0;
        proof {
            assert forall|j: u8| 0 <= j < 8 implies (byte >> j) & 1u8 == 0u8 by {
                lemma_zero_bits(j);
            }
        }
        while k < 8
            invariant
                k <= 8,
                i < H,
                bits@.len() == H * 8,
                total == H * 8,
                forall|j: u8| j < k ==> (((byte >> j) & 1u8 == 1u8) == bits@[i * 8 + j]),
                forall|j: u8| k <= j < 8 ==> (byte >> j) & 1u8 == 0u8,
            decreases 8 - k,
        {
            let old_byte = byte;
            assert(i * 8 + k < H * 8) by (nonlinear_arith)
                requires
                    i < H,
                    k < 8,
            ;
            if bits[i * 8 + k] {
                byte = byte | (1u8 << (k as u8));
            }
            proof {
                assert forall|j: u8| j < k + 1 implies (((byte >> j) & 1u8 == 1u8) == bits@[i * 8
                    + j]) by {
                    lemma_set_bit(old_byte, k as u8, j);
                }
                assert forall|j: u8| k + 1 <= j < 8 implies (byte >> j) & 1u8 == 0u8 by {
                    lemma_set_bit(old_byte, k as u8, j);
                }
            }
            k = k + 1;
        }
        let ghost before = out@;
        out[i] = byte;
        proof {
            assert forall|ix: int| 0 <= ix < (i + 1) * 8 implies bit_at(out@, ix) == bits@[ix] by {
                if ix < i * 8 {
                    assert(ix / 8 < i) by (nonlinear_arith)
                        requires
                            0 <= ix < i * 8,
                    ;
                    assert(out@[ix / 8] == before[ix / 8]);
                } else {
                    assert(ix / 8 == i && ix % 8 == ix - i * 8) by (nonlinear_arith)
                        requires
                            i * 8 <= ix < (i + 1) * 8,
                    ;
                    let j = (ix - i * 8) as u8;
                    assert(bits@[i * 8 + j] == bits@[ix]);
                }
            }
        }
        i = i + 1;
    }
    out
}

} // verus!
